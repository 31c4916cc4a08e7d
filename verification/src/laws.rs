//! What holds of the operations taken together: that unsafe names are
//! turned away, that real content is spared, that enabling and disabling do
//! what they say, and that every instance is counted.
//!
//! Each law is a proof about the descriptions that the operations' own
//! contracts use: the plans they return, and the effect of carrying a plan
//! out as `model` describes it.

use vstd::prelude::*;
use crate::bulk::{disable_plan, enable_plan, link_steps, pending, unlink_steps};
use crate::latest::place_in;
use crate::linking::targeting;
use crate::model::{
    after_step, all_fill, completes, fills, lemma_run_concat, lemma_run_keeps_taken,
    lemma_run_spares_content, occupied, overwrites, real_content, run, stops, writes_to,
};
use crate::observe::{facts_at, Facts, World};
use crate::plan::{best_effort, fail_fast, ActionModel, StepModel};
use crate::reconcile::{
    all_file_steps, all_folder_steps, cleanup_of, cleanup_pass, cleanup_steps, fallback_name,
    file_steps, folder_steps, make_parent, options_name, plan_for,
};
use crate::safe_path::{
    clean, has_dot_dot, has_forbidden, is_absolute, is_safe, lies_under, normalized, resolve,
};
use crate::state::{count_blocked, count_linked};

verus! {

/// A name that holds two dots in a row, starts at the root, or holds a
/// backslash, a colon or a terminator is no safe path.
pub proof fn lemma_markers_are_rejected(name: Seq<char>)
    requires
        has_dot_dot(name) || is_absolute(name) || has_forbidden(name),
    ensures
        !is_safe(name),
{
}

/// A safe name resolved against a directory stays below that directory: the
/// path is the directory, a slash, and a relative path that is clean.
pub proof fn lemma_safe_name_stays_inside(base: Seq<char>, name: Seq<char>)
    requires
        is_safe(name),
        base.len() > 0,
    ensures
        lies_under(resolve(base, normalized(name)), base),
        clean(normalized(name)),
{
    crate::safe_path::lemma_safe_is_clean(name);
    assert(resolve(base, normalized(name)) == resolve(base, normalized(name)));
}

/// Every path that the status of a target is read from lies below the root
/// of an instance.
pub proof fn lemma_state_reads_stay_inside(roots: Seq<Seq<char>>, name: Seq<char>, at: int)
    requires
        0 <= at < crate::probes::name_places(roots, name).len(),
        roots[at].len() > 0,
    ensures
        at < roots.len(),
        lies_under(crate::probes::name_places(roots, name)[at].path, roots[at]),
{
    crate::safe_path::lemma_safe_is_clean(name);
    assert(crate::probes::name_places(roots, name)[at].path == resolve(
        roots[at],
        normalized(name),
    ));
}

/// The steps for a folder target touch nothing but the folder's directory
/// below the shared store, the folder's place below the instance root, and
/// the directory that holds that place.
pub proof fn lemma_folder_steps_stay_inside(
    world: World,
    synced_dir: Seq<char>,
    root: Seq<char>,
    name: Seq<char>,
    at: int,
)
    requires
        0 <= at < folder_steps(world, synced_dir, root, name).len(),
        synced_dir.len() > 0,
        root.len() > 0,
    ensures
        match folder_steps(world, synced_dir, root, name)[at].action {
            ActionModel::CreateDirAll { path } => lies_under(path, synced_dir) || Some(path)
                == crate::reconcile::parent_of(resolve(root, normalized(name))),
            ActionModel::LinkDir { original, link } => lies_under(original, synced_dir)
                && lies_under(link, root),
            _ => false,
        },
{
    crate::safe_path::lemma_safe_is_clean(name);
    let shared = resolve(synced_dir, normalized(name));
    let place = resolve(root, normalized(name));
    assert(lies_under(shared, synced_dir));
    assert(lies_under(place, root));
}

/// A file is copied to no place but its own below the instance root.
pub proof fn lemma_file_copy_stays_inside(
    world: World,
    instances_dir: Seq<char>,
    synced_dir: Seq<char>,
    root: Seq<char>,
    name: Seq<char>,
    at: int,
)
    requires
        0 <= at < file_steps(world, instances_dir, synced_dir, root, name).len(),
        root.len() > 0,
        file_steps(world, instances_dir, synced_dir, root, name)[at].action is CopyFile,
    ensures
        is_safe(name),
        file_steps(world, instances_dir, synced_dir, root, name)[at].action->to == resolve(
            root,
            normalized(name),
        ),
        lies_under(resolve(root, normalized(name)), root),
{
    if is_safe(name) {
        crate::safe_path::lemma_safe_is_clean(name);
        assert(lies_under(resolve(root, normalized(name)), root));
    }
}

/// The number of `roots` under which `rel` does not exist and is no link to
/// `shared`: the instances that are free to be linked.
pub open spec fn count_free(world: World, roots: Seq<Seq<char>>, rel: Seq<char>, shared: Seq<char>) -> nat
    decreases roots.len(),
{
    if roots.len() == 0 {
        0
    } else {
        count_free(world, roots.drop_last(), rel, shared) + if !targeting(
            world,
            shared,
            resolve(roots.last(), rel),
        ) && !facts_at(world, resolve(roots.last(), rel)).present {
            1nat
        } else {
            0nat
        }
    }
}

/// Every instance is counted once: as linked, as blocked, or as neither.
pub proof fn lemma_state_accounting(
    world: World,
    roots: Seq<Seq<char>>,
    rel: Seq<char>,
    shared: Seq<char>,
)
    ensures
        count_linked(world, roots, rel, shared) + count_blocked(world, roots, rel, shared)
            + count_free(world, roots, rel, shared) == roots.len(),
    decreases roots.len(),
{
    if roots.len() > 0 {
        lemma_state_accounting(world, roots.drop_last(), rel, shared);
    }
}

/// A folder whose place in the instance is taken by anything gets no step
/// when the instance is brought in line.
pub proof fn lemma_taken_folder_gets_no_step(
    world: World,
    synced_dir: Seq<char>,
    root: Seq<char>,
    name: Seq<char>,
)
    requires
        is_safe(name) ==> facts_at(world, resolve(root, normalized(name))).present,
    ensures
        folder_steps(world, synced_dir, root, name) == Seq::<StepModel>::empty(),
{
}

/// An entry that is no link is never removed by the cleanup.
pub proof fn lemma_cleanup_removes_links_only(
    world: World,
    folders: Seq<Seq<char>>,
    synced_dir: Seq<char>,
    entry: Seq<char>,
    relative: Option<Seq<char>>,
)
    requires
        facts_at(world, entry).link_target is None,
    ensures
        cleanup_of(world, folders, synced_dir, entry, relative) == Seq::<StepModel>::empty(),
{
}

/// Each place in `pending` is the place of a root, and the place of every
/// root that is not yet linked is in `pending`.
pub proof fn lemma_pending(world: World, roots: Seq<Seq<char>>, rel: Seq<char>, shared: Seq<char>)
    ensures
        forall|i: int|
            0 <= i < roots.len() && !targeting(world, shared, resolve(#[trigger] roots[i], rel))
                ==> pending(world, roots, rel, shared).contains(resolve(roots[i], rel)),
        forall|k: int|
            0 <= k < pending(world, roots, rel, shared).len() ==> exists|i: int|
                0 <= i < roots.len() && !targeting(world, shared, resolve(#[trigger] roots[i], rel))
                    && resolve(roots[i], rel) == #[trigger] pending(world, roots, rel, shared)[k],
    decreases roots.len(),
{
    if roots.len() > 0 {
        let shorter = roots.drop_last();
        lemma_pending(world, shorter, rel, shared);
        let before = pending(world, shorter, rel, shared);
        let all = pending(world, roots, rel, shared);
        let last = resolve(roots.last(), rel);
        assert forall|i: int|
            0 <= i < roots.len() && !targeting(
                world,
                shared,
                resolve(#[trigger] roots[i], rel),
            ) implies all.contains(resolve(roots[i], rel)) by {
            if i < shorter.len() {
                assert(shorter[i] == roots[i]);
                assert(before.contains(resolve(shorter[i], rel)));
                let k = choose|k: int| 0 <= k < before.len() && before[k] == resolve(roots[i], rel);
                assert(all[k] == before[k]);
            } else {
                assert(all[all.len() - 1] == last);
            }
        }
        assert forall|k: int| 0 <= k < all.len() implies exists|i: int|
            0 <= i < roots.len() && !targeting(world, shared, resolve(#[trigger] roots[i], rel))
                && resolve(roots[i], rel) == #[trigger] all[k] by {
            if k < before.len() {
                assert(all[k] == before[k]);
                let i = choose|i: int|
                    0 <= i < shorter.len() && !targeting(
                        world,
                        shared,
                        resolve(#[trigger] shorter[i], rel),
                    ) && resolve(shorter[i], rel) == before[k];
                assert(shorter[i] == roots[i]);
            } else {
                assert(roots[roots.len() - 1] == roots.last());
            }
        }
    }
}

/// Enabling a folder is refused as soon as one instance that is not yet
/// linked has something in the folder's place; no step is returned, so
/// nothing is linked on any instance.
pub proof fn lemma_enable_refuses_conflict(
    world: World,
    name: Seq<char>,
    roots: Seq<Seq<char>>,
    synced_dir: Seq<char>,
    at: int,
)
    requires
        is_safe(name),
        0 <= at < roots.len(),
        facts_at(world, resolve(roots[at], normalized(name))).present,
        !targeting(
            world,
            resolve(synced_dir, normalized(name)),
            resolve(roots[at], normalized(name)),
        ),
    ensures
        enable_plan(world, name, false, roots, synced_dir) is None,
{
    let rel = normalized(name);
    let shared = resolve(synced_dir, rel);
    lemma_pending(world, roots, rel, shared);
    let paths = pending(world, roots, rel, shared);
    assert(paths.contains(resolve(roots[at], rel)));
    let k = choose|k: int| 0 <= k < paths.len() && paths[k] == resolve(roots[at], rel);
    assert(facts_at(world, paths[k]).present);
}

/// The steps that link instances only fill free places.
pub proof fn lemma_link_steps_fill(shared: Seq<char>, paths: Seq<Seq<char>>)
    ensures
        all_fill(link_steps(shared, paths)),
    decreases paths.len(),
{
    if paths.len() > 0 {
        lemma_link_steps_fill(shared, paths.drop_last());
        let inner = link_steps(shared, paths.drop_last());
        let steps = link_steps(shared, paths);
        assert forall|i: int| 0 <= i < steps.len() implies fills((#[trigger] steps[i]).action) by {
            if i < inner.len() {
                assert(steps[i] == inner[i]);
            }
        }
    }
}

/// Once the steps that link instances have all been carried out, every
/// place in `paths` is a link to `shared`.
pub proof fn lemma_links_made(world: World, shared: Seq<char>, paths: Seq<Seq<char>>)
    requires
        completes(world, link_steps(shared, paths)),
    ensures
        forall|k: int|
            0 <= k < paths.len() ==> targeting(
                run(world, link_steps(shared, paths)),
                shared,
                #[trigger] paths[k],
            ),
    decreases paths.len(),
{
    if paths.len() > 0 {
        let shorter = paths.drop_last();
        let last = paths.last();
        let inner = link_steps(shared, shorter);
        let prepare = make_parent(last);
        let link = fail_fast(ActionModel::LinkDir { original: shared, link: last });
        let steps = link_steps(shared, paths);
        assert(steps =~= (inner + prepare) + seq![link]);
        lemma_run_concat(world, inner + prepare, seq![link]);
        lemma_run_concat(world, inner, prepare);
        let w1 = run(world, inner);
        let w2 = run(w1, prepare);
        assert(run(world, inner + prepare) == w2);
        assert(completes(w2, seq![link]));
        assert(seq![link].drop_first() =~= Seq::<StepModel>::empty());
        assert(!stops(w2, link));
        let w3 = after_step(w2, link);
        assert(run(w2, seq![link]) == w3) by {
            assert(seq![link][0] == link);
            assert(run(w3, seq![link].drop_first()) == w3);
        }
        assert(run(world, steps) == w3);
        lemma_links_made(world, shared, shorter);
        assert forall|k: int| 0 <= k < paths.len() implies targeting(
            w3,
            shared,
            #[trigger] paths[k],
        ) by {
            if k < shorter.len() {
                assert(paths[k] == shorter[k]);
                assert(targeting(w1, shared, shorter[k]));
                assert(all_fill(prepare));
                lemma_run_keeps_taken(w1, prepare, paths[k]);
            }
        }
    }
}

/// After a folder has been enabled, every instance that takes part in
/// sharing has the folder as a link to its directory in the store.
pub proof fn lemma_enable_links_every_instance(
    world: World,
    name: Seq<char>,
    roots: Seq<Seq<char>>,
    synced_dir: Seq<char>,
)
    requires
        enable_plan(world, name, false, roots, synced_dir) is Some,
        completes(world, enable_plan(world, name, false, roots, synced_dir)->0),
    ensures
        is_safe(name),
        forall|i: int|
            0 <= i < roots.len() ==> targeting(
                run(world, enable_plan(world, name, false, roots, synced_dir)->0),
                resolve(synced_dir, normalized(name)),
                resolve(#[trigger] roots[i], normalized(name)),
            ),
{
    let rel = normalized(name);
    let shared = resolve(synced_dir, rel);
    let paths = pending(world, roots, rel, shared);
    let create = fail_fast(ActionModel::CreateDirAll { path: shared });
    let links = link_steps(shared, paths);
    let steps = enable_plan(world, name, false, roots, synced_dir)->0;
    assert(steps == seq![create] + links);
    assert(steps[0] == create);
    assert(steps.drop_first() =~= links);
    let w1 = after_step(world, create);
    assert(run(world, steps) == run(w1, links));
    assert(completes(w1, links));
    lemma_links_made(w1, shared, paths);
    lemma_link_steps_fill(shared, paths);
    lemma_pending(world, roots, rel, shared);
    assert forall|i: int| 0 <= i < roots.len() implies targeting(
        run(w1, links),
        shared,
        resolve(#[trigger] roots[i], rel),
    ) by {
        let place = resolve(roots[i], rel);
        if targeting(world, shared, place) {
            assert(occupied(world, place));
            assert(facts_at(w1, place) == facts_at(world, place));
            lemma_run_keeps_taken(w1, links, place);
        } else {
            assert(paths.contains(place));
            let k = choose|k: int| 0 <= k < paths.len() && paths[k] == place;
            assert(targeting(run(w1, links), shared, paths[k]));
        }
    }
}

/// Removing the links to `shared` at the places of `rel` always runs to the
/// end. Afterwards a place that was such a link is empty, and every other
/// path is as it was.
pub proof fn lemma_unlinks_done(
    world: World,
    shared: Seq<char>,
    rel: Seq<char>,
    entries: Seq<Seq<char>>,
    path: Seq<char>,
)
    ensures
        completes(world, unlink_steps(shared, rel, entries)),
        facts_at(run(world, unlink_steps(shared, rel, entries)), path) == (if targeting(
            world,
            shared,
            path,
        ) && exists|i: int| 0 <= i < entries.len() && #[trigger] place_in(entries[i], rel) == path {
            Facts::absent()
        } else {
            facts_at(world, path)
        }),
    decreases entries.len(),
{
    let steps = unlink_steps(shared, rel, entries);
    if entries.len() > 0 {
        let rest = entries.drop_first();
        assert(steps.drop_first() =~= unlink_steps(shared, rel, rest));
        let first = place_in(entries[0], rel);
        assert(steps[0] == fail_fast(
            ActionModel::UnlinkDirIfTargeting { original: shared, link: first },
        ));
        let w1 = after_step(world, steps[0]);
        lemma_unlinks_done(w1, shared, rel, rest, path);
        let listed = exists|i: int|
            0 <= i < entries.len() && #[trigger] place_in(entries[i], rel) == path;
        let listed_later = exists|i: int|
            0 <= i < rest.len() && #[trigger] place_in(rest[i], rel) == path;
        if listed_later {
            let i = choose|i: int| 0 <= i < rest.len() && #[trigger] place_in(rest[i], rel) == path;
            assert(place_in(entries[i + 1], rel) == path);
        }
        if listed && path != first {
            let i = choose|i: int|
                0 <= i < entries.len() && #[trigger] place_in(entries[i], rel) == path;
            assert(place_in(rest[i - 1], rel) == path);
        }
        if path == first {
            assert(place_in(entries[0], rel) == path);
        }
    }
}

/// After a folder has been disabled, no listed instance has the folder as a
/// link to its directory in the store, and nothing that was not such a link
/// has been touched.
pub proof fn lemma_disable_unlinks_every_instance(
    world: World,
    name: Seq<char>,
    instances_dir: Seq<char>,
    synced_dir: Seq<char>,
)
    requires
        is_safe(name),
        facts_at(world, instances_dir).entries is Some,
    ensures
        disable_plan(world, name, false, instances_dir, synced_dir) is Ok,
        completes(world, disable_plan(world, name, false, instances_dir, synced_dir)->Ok_0),
        forall|i: int|
            0 <= i < facts_at(world, instances_dir).entries->0.len() ==> !targeting(
                run(world, disable_plan(world, name, false, instances_dir, synced_dir)->Ok_0),
                resolve(synced_dir, normalized(name)),
                #[trigger] place_in(facts_at(world, instances_dir).entries->0[i], normalized(name)),
            ),
        forall|path: Seq<char>|
            !targeting(world, resolve(synced_dir, normalized(name)), path) ==> #[trigger] facts_at(
                run(world, disable_plan(world, name, false, instances_dir, synced_dir)->Ok_0),
                path,
            ) == facts_at(world, path),
{
    let rel = normalized(name);
    let shared = resolve(synced_dir, rel);
    let entries = facts_at(world, instances_dir).entries->0;
    let steps = unlink_steps(shared, rel, entries);
    lemma_unlinks_done(world, shared, rel, entries, shared);
    assert forall|i: int| 0 <= i < entries.len() implies !targeting(
        run(world, steps),
        shared,
        #[trigger] place_in(entries[i], rel),
    ) by {
        lemma_unlinks_done(world, shared, rel, entries, place_in(entries[i], rel));
    }
    assert forall|path: Seq<char>| !targeting(world, shared, path) implies #[trigger] facts_at(
        run(world, steps),
        path,
    ) == facts_at(world, path) by {
        lemma_unlinks_done(world, shared, rel, entries, path);
    }
}

/// A step of two lists writes to a path exactly when a step of one of them
/// does.
pub proof fn lemma_overwrites_concat(first: Seq<StepModel>, second: Seq<StepModel>, path: Seq<char>)
    ensures
        overwrites(first + second, path) == (overwrites(first, path) || overwrites(second, path)),
{
    let both = first + second;
    if overwrites(both, path) {
        let i = choose|i: int| 0 <= i < both.len() && writes_to((#[trigger] both[i]).action, path);
        if i < first.len() {
            assert(writes_to(first[i].action, path));
        } else {
            assert(writes_to(second[i - first.len()].action, path));
        }
    }
    if overwrites(first, path) {
        let i = choose|i: int| 0 <= i < first.len() && writes_to((#[trigger] first[i]).action, path);
        assert(writes_to(both[i].action, path));
    }
    if overwrites(second, path) {
        let i = choose|i: int|
            0 <= i < second.len() && writes_to((#[trigger] second[i]).action, path);
        assert(writes_to(both[i + first.len()].action, path));
    }
}

/// The cleanup writes no file.
proof fn lemma_cleanup_writes_nothing(
    world: World,
    folders: Seq<Seq<char>>,
    synced_dir: Seq<char>,
    entries: Seq<Seq<char>>,
    relatives: Seq<Option<Seq<char>>>,
    path: Seq<char>,
)
    ensures
        !overwrites(cleanup_steps(world, folders, synced_dir, entries, relatives), path),
    decreases entries.len(),
{
    if entries.len() > 0 && relatives.len() == entries.len() {
        lemma_cleanup_writes_nothing(
            world,
            folders,
            synced_dir,
            entries.drop_last(),
            relatives.drop_last(),
            path,
        );
        lemma_overwrites_concat(
            cleanup_steps(world, folders, synced_dir, entries.drop_last(), relatives.drop_last()),
            cleanup_of(world, folders, synced_dir, entries.last(), relatives.last()),
            path,
        );
    }
}

/// The folder steps write no file.
proof fn lemma_folders_write_nothing(
    world: World,
    synced_dir: Seq<char>,
    root: Seq<char>,
    folders: Seq<Seq<char>>,
    path: Seq<char>,
)
    ensures
        !overwrites(all_folder_steps(world, synced_dir, root, folders), path),
    decreases folders.len(),
{
    if folders.len() > 0 {
        lemma_folders_write_nothing(world, synced_dir, root, folders.drop_last(), path);
        lemma_overwrites_concat(
            all_folder_steps(world, synced_dir, root, folders.drop_last()),
            folder_steps(world, synced_dir, root, folders.last()),
            path,
        );
    }
}

/// The file steps write only to the baseline, to the instance's options
/// file, and to the places of the configured files that are safe paths.
proof fn lemma_files_write_their_places(
    world: World,
    instances_dir: Seq<char>,
    synced_dir: Seq<char>,
    root: Seq<char>,
    files: Seq<Seq<char>>,
    path: Seq<char>,
)
    requires
        overwrites(all_file_steps(world, instances_dir, synced_dir, root, files), path),
    ensures
        path == resolve(synced_dir, fallback_name()) || path == resolve(root, options_name())
            || exists|k: int|
            0 <= k < files.len() && is_safe(#[trigger] files[k]) && path == resolve(
                root,
                normalized(files[k]),
            ),
    decreases files.len(),
{
    if files.len() > 0 {
        let shorter = files.drop_last();
        let name = files.last();
        lemma_overwrites_concat(
            all_file_steps(world, instances_dir, synced_dir, root, shorter),
            file_steps(world, instances_dir, synced_dir, root, name),
            path,
        );
        if overwrites(all_file_steps(world, instances_dir, synced_dir, root, shorter), path) {
            lemma_files_write_their_places(world, instances_dir, synced_dir, root, shorter, path);
            if !(path == resolve(synced_dir, fallback_name()) || path == resolve(
                root,
                options_name(),
            )) {
                let k = choose|k: int|
                    0 <= k < shorter.len() && is_safe(#[trigger] shorter[k]) && path == resolve(
                        root,
                        normalized(shorter[k]),
                    );
                assert(files[k] == shorter[k]);
            }
        } else {
            let steps = file_steps(world, instances_dir, synced_dir, root, name);
            let i = choose|i: int| 0 <= i < steps.len() && writes_to((#[trigger] steps[i]).action, path);
            if name != options_name() {
                assert(is_safe(name));
                assert(files[files.len() - 1] == name);
                assert(path == resolve(root, normalized(name)));
            }
        }
    }
}

/// Bringing an instance in line leaves real content as it was everywhere
/// but at the files it is configured to sync: the baseline, the instance's
/// options file, and the places of the configured files. In particular a
/// folder target whose place holds real content is neither removed nor
/// replaced.
pub proof fn lemma_apply_spares_content(
    world: World,
    files: Seq<Seq<char>>,
    folders: Seq<Seq<char>>,
    instances_dir: Seq<char>,
    synced_dir: Seq<char>,
    root: Seq<char>,
    relatives: Seq<Option<Seq<char>>>,
    path: Seq<char>,
)
    requires
        real_content(world, path),
        path != resolve(synced_dir, fallback_name()),
        path != resolve(root, options_name()),
        forall|k: int|
            0 <= k < files.len() && is_safe(#[trigger] files[k]) ==> path != resolve(
                root,
                normalized(files[k]),
            ),
    ensures
        facts_at(
            run(
                world,
                plan_for(world, files, folders, instances_dir, synced_dir, root, relatives),
            ),
            path,
        ) == facts_at(world, path),
{
    let create = seq![best_effort(ActionModel::CreateDirAll { path: root })];
    let cleanup = cleanup_pass(world, folders, synced_dir, root, relatives);
    let file_part = all_file_steps(world, instances_dir, synced_dir, root, files);
    let folder_part = all_folder_steps(world, synced_dir, root, folders);
    let plan = plan_for(world, files, folders, instances_dir, synced_dir, root, relatives);
    assert(plan == create + cleanup + file_part + folder_part);
    lemma_overwrites_concat(create + cleanup + file_part, folder_part, path);
    lemma_overwrites_concat(create + cleanup, file_part, path);
    lemma_overwrites_concat(create, cleanup, path);
    lemma_folders_write_nothing(world, synced_dir, root, folders, path);
    if let Some(entries) = facts_at(world, root).entries {
        lemma_cleanup_writes_nothing(world, folders, synced_dir, entries, relatives, path);
    }
    if overwrites(file_part, path) {
        lemma_files_write_their_places(world, instances_dir, synced_dir, root, files, path);
    }
    if overwrites(create, path) {
        let i = choose|i: int| 0 <= i < create.len() && writes_to((#[trigger] create[i]).action, path);
    }
    lemma_run_spares_content(world, plan, path);
}

/// Where every instance has the folder as a link to its directory in the
/// store, all are counted as linked and none as blocked.
pub proof fn lemma_all_linked_counts(
    world: World,
    roots: Seq<Seq<char>>,
    rel: Seq<char>,
    shared: Seq<char>,
)
    requires
        forall|i: int| 0 <= i < roots.len() ==> targeting(world, shared, resolve(#[trigger] roots[i], rel)),
    ensures
        count_linked(world, roots, rel, shared) == roots.len(),
        count_blocked(world, roots, rel, shared) == 0,
    decreases roots.len(),
{
    if roots.len() > 0 {
        let shorter = roots.drop_last();
        assert forall|i: int| 0 <= i < shorter.len() implies targeting(
            world,
            shared,
            resolve(#[trigger] shorter[i], rel),
        ) by {
            assert(shorter[i] == roots[i]);
        }
        lemma_all_linked_counts(world, shorter, rel, shared);
        assert(roots[roots.len() - 1] == roots.last());
    }
}

/// After a folder has been enabled, the status shows it as shared on every
/// instance that takes part in sharing, and as blocked on none.
pub proof fn lemma_enabled_folder_is_fully_linked(
    world: World,
    name: Seq<char>,
    roots: Seq<Seq<char>>,
    synced_dir: Seq<char>,
)
    requires
        enable_plan(world, name, false, roots, synced_dir) is Some,
        completes(world, enable_plan(world, name, false, roots, synced_dir)->0),
    ensures
        ({
            let after = run(world, enable_plan(world, name, false, roots, synced_dir)->0);
            let state = crate::state::folder_state(after, roots, synced_dir, name, true);
            state.sync_count == roots.len() as usize && state.cannot_sync_count == 0
        }),
{
    lemma_enable_links_every_instance(world, name, roots, synced_dir);
    let after = run(world, enable_plan(world, name, false, roots, synced_dir)->0);
    lemma_all_linked_counts(
        after,
        roots,
        normalized(name),
        resolve(synced_dir, normalized(name)),
    );
}

} // verus!
