//! What an operation does not read does not matter.
//!
//! An operation decides on a snapshot that holds only the paths it asked
//! for. The laws here say that this is enough: two worlds that show the
//! same at every path an operation reads get the same answer from it.

use vstd::prelude::*;
use crate::bulk::{any_present, disable_plan, enable_plan, pending};
use crate::latest::{newest_among, place_in};
use crate::linking::targeting;
use crate::observe::{facts_at, World};
use crate::probes::{
    apply_reads, copy_reads, disable_reads, enable_reads, gathered, listed, listed_roots,
    name_places, names_places, options_reads, outstanding, places, plain, probe_index, state_reads,
    unseen, with_entries, with_text, ProbeModel,
};
use crate::reconcile::{
    all_file_steps, all_folder_steps, cleanup_pass, cleanup_steps, copies_in, copy_at,
    fallback_name, file_steps, folder_steps, options_name, plan_for,
};
use crate::safe_path::{is_safe, normalized, resolve};
use crate::state::{
    count_blocked, count_dirs, count_linked, default_folder_names, expected_targets,
};

verus! {

/// Whether two worlds show the same at the path of `probe`, as far as the
/// probe reads.
pub open spec fn same_at(a: World, b: World, probe: ProbeModel) -> bool {
    let x = facts_at(a, probe.path);
    let y = facts_at(b, probe.path);
    &&& x.present == y.present
    &&& x.is_dir == y.is_dir
    &&& x.link_target == y.link_target
    &&& x.stamp == y.stamp
    &&& probe.read_text ==> x.content == y.content
    &&& probe.list_entries ==> x.entries == y.entries
}

/// Whether two worlds show the same at every probe of `probes`.
pub open spec fn same_on(a: World, b: World, probes: Seq<ProbeModel>) -> bool {
    forall|i: int| 0 <= i < probes.len() ==> same_at(a, b, #[trigger] probes[i])
}

/// Two worlds show the same on two lists exactly when they do on their
/// concatenation.
pub proof fn lemma_same_on_concat(a: World, b: World, x: Seq<ProbeModel>, y: Seq<ProbeModel>)
    ensures
        same_on(a, b, x + y) == (same_on(a, b, x) && same_on(a, b, y)),
{
    let both = x + y;
    if same_on(a, b, both) {
        assert forall|i: int| 0 <= i < x.len() implies same_at(a, b, #[trigger] x[i]) by {
            assert(both[i] == x[i]);
        }
        assert forall|i: int| 0 <= i < y.len() implies same_at(a, b, #[trigger] y[i]) by {
            assert(both[i + x.len()] == y[i]);
        }
    }
    if same_on(a, b, x) && same_on(a, b, y) {
        assert forall|i: int| 0 <= i < both.len() implies same_at(a, b, #[trigger] both[i]) by {
            if i < x.len() {
                assert(both[i] == x[i]);
            } else {
                assert(both[i] == y[i - x.len()]);
            }
        }
    }
}

/// Gathering keeps every path: each probe of the raw list has a probe of
/// its path in the gathered list.
proof fn lemma_gathered_has(raw: Seq<ProbeModel>, at: int)
    requires
        0 <= at < raw.len(),
    ensures
        exists|j: int| 0 <= j < gathered(raw).len() && (#[trigger] gathered(raw)[j]).path == raw[at].path,
    decreases raw.len(),
{
    let inner = gathered(raw.drop_last());
    let out = gathered(raw);
    let last = raw.last();
    lemma_probe_index(inner, last.path);
    let i = probe_index(inner, last.path);
    if at == raw.len() - 1 {
        if i < inner.len() {
            assert(out[i].path == last.path);
        } else {
            assert(out[inner.len() as int].path == last.path);
        }
    } else {
        assert(raw.drop_last()[at] == raw[at]);
        lemma_gathered_has(raw.drop_last(), at);
        let j = choose|j: int| 0 <= j < inner.len() && (#[trigger] inner[j]).path == raw[at].path;
        assert(out[j].path == inner[j].path);
    }
}

/// `probe_index` lies within the list and points at a probe of the path,
/// if at any.
proof fn lemma_probe_index(list: Seq<ProbeModel>, path: Seq<char>)
    ensures
        0 <= probe_index(list, path) <= list.len(),
        probe_index(list, path) < list.len() ==> list[probe_index(list, path)].path == path,
    decreases list.len(),
{
    if list.len() > 0 && list[0].path != path {
        lemma_probe_index(list.drop_first(), path);
    }
}

/// Where nothing of a list is unseen, the world holds every path of it.
proof fn lemma_nothing_unseen(world: World, list: Seq<ProbeModel>, at: int)
    requires
        unseen(world, list).len() == 0,
        0 <= at < list.len(),
    ensures
        world.dom().contains(list[at].path),
    decreases list.len(),
{
    if at < list.len() - 1 {
        assert(list.drop_last()[at] == list[at]);
        lemma_nothing_unseen(world, list.drop_last(), at);
    }
}

/// Once nothing is outstanding, the world holds every path that is read.
pub proof fn lemma_nothing_outstanding(world: World, raw: Seq<ProbeModel>)
    requires
        outstanding(world, raw).len() == 0,
    ensures
        forall|i: int| 0 <= i < raw.len() ==> world.dom().contains((#[trigger] raw[i]).path),
{
    assert forall|i: int| 0 <= i < raw.len() implies world.dom().contains(
        (#[trigger] raw[i]).path,
    ) by {
        lemma_gathered_has(raw, i);
        let j = choose|j: int|
            0 <= j < gathered(raw).len() && (#[trigger] gathered(raw)[j]).path == raw[i].path;
        lemma_nothing_unseen(world, gathered(raw), j);
    }
}

/// Worlds that show the same at the places of `rel` count the same there.
proof fn lemma_counts_read_places(
    a: World,
    b: World,
    roots: Seq<Seq<char>>,
    rel: Seq<char>,
    shared: Seq<char>,
)
    requires
        same_on(a, b, places(roots, rel)),
    ensures
        count_dirs(a, roots, rel) == count_dirs(b, roots, rel),
        count_linked(a, roots, rel, shared) == count_linked(b, roots, rel, shared),
        count_blocked(a, roots, rel, shared) == count_blocked(b, roots, rel, shared),
        pending(a, roots, rel, shared) == pending(b, roots, rel, shared),
    decreases roots.len(),
{
    if roots.len() > 0 {
        let shorter = roots.drop_last();
        let last = roots.len() - 1;
        assert forall|i: int| 0 <= i < places(shorter, rel).len() implies same_at(
            a,
            b,
            #[trigger] places(shorter, rel)[i],
        ) by {
            assert(places(shorter, rel)[i] == places(roots, rel)[i]);
        }
        lemma_counts_read_places(a, b, shorter, rel, shared);
        assert(same_at(a, b, places(roots, rel)[last]));
        assert(places(roots, rel)[last] == plain(resolve(roots.last(), rel)));
    }
}

/// Worlds that show the same at the places of every name of a list show the
/// same at the places of each.
proof fn lemma_names_places_each(
    a: World,
    b: World,
    roots: Seq<Seq<char>>,
    names: Seq<Seq<char>>,
    at: int,
)
    requires
        same_on(a, b, names_places(roots, names)),
        0 <= at < names.len(),
    ensures
        same_on(a, b, name_places(roots, names[at])),
    decreases names.len(),
{
    lemma_same_on_concat(
        a,
        b,
        names_places(roots, names.drop_last()),
        name_places(roots, names.last()),
    );
    if at < names.len() - 1 {
        assert(names.drop_last()[at] == names[at]);
        lemma_names_places_each(a, b, roots, names.drop_last(), at);
    }
}

/// The status of the targets is read from the places of the targets alone:
/// worlds that show the same there have the same status.
pub proof fn lemma_state_reads_suffice(
    a: World,
    b: World,
    files: Seq<Seq<char>>,
    folders: Seq<Seq<char>>,
    roots: Seq<Seq<char>>,
    synced_dir: Seq<char>,
)
    requires
        same_on(a, b, state_reads(files, folders, roots)),
    ensures
        expected_targets(a, files, folders, roots, synced_dir) == expected_targets(
            b,
            files,
            folders,
            roots,
            synced_dir,
        ),
{
    let defaults = default_folder_names();
    lemma_same_on_concat(
        a,
        b,
        names_places(roots, files) + names_places(roots, folders),
        names_places(roots, defaults),
    );
    lemma_same_on_concat(a, b, names_places(roots, files), names_places(roots, folders));
    let x = expected_targets(a, files, folders, roots, synced_dir);
    let y = expected_targets(b, files, folders, roots, synced_dir);
    assert forall|name: Seq<char>| x.dom().contains(name) implies #[trigger] x[name] == y[name] by {
        if is_safe(name) {
            let rel = normalized(name);
            let shared = resolve(synced_dir, rel);
            if folders.contains(name) {
                let k = choose|k: int| 0 <= k < folders.len() && folders[k] == name;
                lemma_names_places_each(a, b, roots, folders, k);
            } else if defaults.contains(name) {
                let k = choose|k: int| 0 <= k < defaults.len() && defaults[k] == name;
                lemma_names_places_each(a, b, roots, defaults, k);
            } else {
                let k = choose|k: int| 0 <= k < files.len() && files[k] == name;
                lemma_names_places_each(a, b, roots, files, k);
            }
            lemma_counts_read_places(a, b, roots, rel, shared);
        }
    }
    assert(x =~= y);
}

/// Whether something is there at one of `paths` is read from those paths.
proof fn lemma_any_present_reads(a: World, b: World, paths: Seq<Seq<char>>)
    requires
        forall|i: int|
            0 <= i < paths.len() ==> facts_at(a, #[trigger] paths[i]).present == facts_at(
                b,
                paths[i],
            ).present,
    ensures
        any_present(a, paths) == any_present(b, paths),
{
    if any_present(a, paths) {
        let i = choose|i: int| 0 <= i < paths.len() && facts_at(a, #[trigger] paths[i]).present;
        assert(facts_at(b, paths[i]).present);
    }
    if any_present(b, paths) {
        let i = choose|i: int| 0 <= i < paths.len() && facts_at(b, #[trigger] paths[i]).present;
        assert(facts_at(a, paths[i]).present);
    }
}

/// Enabling a target is decided from the places of the target alone.
pub proof fn lemma_enable_reads_suffice(
    a: World,
    b: World,
    name: Seq<char>,
    is_file: bool,
    roots: Seq<Seq<char>>,
    synced_dir: Seq<char>,
)
    requires
        same_on(a, b, enable_reads(name, is_file, roots)),
    ensures
        enable_plan(a, name, is_file, roots, synced_dir) == enable_plan(
            b,
            name,
            is_file,
            roots,
            synced_dir,
        ),
{
    if !is_file && is_safe(name) {
        let rel = normalized(name);
        let shared = resolve(synced_dir, rel);
        lemma_counts_read_places(a, b, roots, rel, shared);
        let paths = pending(a, roots, rel, shared);
        crate::laws::lemma_pending(a, roots, rel, shared);
        assert forall|k: int| 0 <= k < paths.len() implies facts_at(a, #[trigger] paths[k]).present
            == facts_at(b, paths[k]).present by {
            let i = choose|i: int|
                0 <= i < roots.len() && !targeting(a, shared, resolve(#[trigger] roots[i], rel))
                    && resolve(roots[i], rel) == paths[k];
            assert(same_at(a, b, places(roots, rel)[i]));
        }
        lemma_any_present_reads(a, b, paths);
    }
}

/// Disabling a target is planned from the listing of the instances
/// directory alone.
pub proof fn lemma_disable_reads_suffice(
    a: World,
    b: World,
    name: Seq<char>,
    is_file: bool,
    instances_dir: Seq<char>,
    synced_dir: Seq<char>,
)
    requires
        same_on(a, b, disable_reads(name, is_file, instances_dir)),
    ensures
        disable_plan(a, name, is_file, instances_dir, synced_dir) == disable_plan(
            b,
            name,
            is_file,
            instances_dir,
            synced_dir,
        ),
{
    if !is_file && is_safe(name) {
        assert(same_at(a, b, disable_reads(name, is_file, instances_dir)[0]));
    }
}

/// The cleanup is read from the link targets of the entries.
proof fn lemma_cleanup_reads(
    a: World,
    b: World,
    folders: Seq<Seq<char>>,
    synced_dir: Seq<char>,
    entries: Seq<Seq<char>>,
    relatives: Seq<Option<Seq<char>>>,
)
    requires
        forall|i: int|
            0 <= i < entries.len() ==> facts_at(a, #[trigger] entries[i]).link_target == facts_at(
                b,
                entries[i],
            ).link_target,
    ensures
        cleanup_steps(a, folders, synced_dir, entries, relatives) == cleanup_steps(
            b,
            folders,
            synced_dir,
            entries,
            relatives,
        ),
    decreases entries.len(),
{
    if entries.len() > 0 && relatives.len() == entries.len() {
        let es = entries.drop_last();
        assert forall|i: int| 0 <= i < es.len() implies facts_at(a, #[trigger] es[i]).link_target
            == facts_at(b, es[i]).link_target by {
            assert(es[i] == entries[i]);
        }
        lemma_cleanup_reads(a, b, folders, synced_dir, es, relatives.drop_last());
        assert(entries[entries.len() - 1] == entries.last());
    }
}

/// The steps for all of `names` are the same in two worlds where the steps
/// for each are.
proof fn lemma_file_steps_each(
    a: World,
    b: World,
    instances_dir: Seq<char>,
    synced_dir: Seq<char>,
    root: Seq<char>,
    names: Seq<Seq<char>>,
)
    requires
        forall|k: int|
            0 <= k < names.len() ==> file_steps(
                a,
                instances_dir,
                synced_dir,
                root,
                #[trigger] names[k],
            ) == file_steps(b, instances_dir, synced_dir, root, names[k]),
    ensures
        all_file_steps(a, instances_dir, synced_dir, root, names) == all_file_steps(
            b,
            instances_dir,
            synced_dir,
            root,
            names,
        ),
    decreases names.len(),
{
    if names.len() > 0 {
        let shorter = names.drop_last();
        assert forall|k: int| 0 <= k < shorter.len() implies file_steps(
            a,
            instances_dir,
            synced_dir,
            root,
            #[trigger] shorter[k],
        ) == file_steps(b, instances_dir, synced_dir, root, shorter[k]) by {
            assert(shorter[k] == names[k]);
        }
        lemma_file_steps_each(a, b, instances_dir, synced_dir, root, shorter);
        assert(names[names.len() - 1] == names.last());
    }
}

/// As `lemma_file_steps_each`, for the folder targets.
proof fn lemma_folder_steps_each(
    a: World,
    b: World,
    synced_dir: Seq<char>,
    root: Seq<char>,
    names: Seq<Seq<char>>,
)
    requires
        forall|k: int|
            0 <= k < names.len() ==> folder_steps(a, synced_dir, root, #[trigger] names[k])
                == folder_steps(b, synced_dir, root, names[k]),
    ensures
        all_folder_steps(a, synced_dir, root, names) == all_folder_steps(
            b,
            synced_dir,
            root,
            names,
        ),
    decreases names.len(),
{
    if names.len() > 0 {
        let shorter = names.drop_last();
        assert forall|k: int| 0 <= k < shorter.len() implies folder_steps(
            a,
            synced_dir,
            root,
            #[trigger] shorter[k],
        ) == folder_steps(b, synced_dir, root, shorter[k]) by {
            assert(shorter[k] == names[k]);
        }
        lemma_folder_steps_each(a, b, synced_dir, root, shorter);
        assert(names[names.len() - 1] == names.last());
    }
}

/// The newest copy is read from the time stamps of the copies.
proof fn lemma_newest_reads(a: World, b: World, entries: Seq<Seq<char>>, rel: Seq<char>)
    requires
        forall|i: int|
            0 <= i < entries.len() ==> facts_at(a, place_in(#[trigger] entries[i], rel)).stamp
                == facts_at(b, place_in(entries[i], rel)).stamp,
    ensures
        newest_among(a, entries, rel) == newest_among(b, entries, rel),
    decreases entries.len(),
{
    if entries.len() > 0 {
        let es = entries.drop_last();
        assert forall|i: int| 0 <= i < es.len() implies facts_at(
            a,
            place_in(#[trigger] es[i], rel),
        ).stamp == facts_at(b, place_in(es[i], rel)).stamp by {
            assert(es[i] == entries[i]);
        }
        lemma_newest_reads(a, b, es, rel);
        assert(entries[entries.len() - 1] == entries.last());
    }
}

/// Worlds that show the same at the copies of the files show the same at
/// the places of each file but the options file.
proof fn lemma_copy_reads_each(
    a: World,
    b: World,
    roots: Seq<Seq<char>>,
    files: Seq<Seq<char>>,
    at: int,
)
    requires
        same_on(a, b, copy_reads(roots, files)),
        0 <= at < files.len(),
        files[at] != options_name(),
    ensures
        same_on(a, b, name_places(roots, files[at])),
    decreases files.len(),
{
    let shorter = files.drop_last();
    if files.last() != options_name() {
        lemma_same_on_concat(a, b, copy_reads(roots, shorter), name_places(roots, files.last()));
    }
    if at < files.len() - 1 {
        assert(shorter[at] == files[at]);
        lemma_copy_reads_each(a, b, roots, shorter, at);
    }
}

/// The plan for an instance is made from what it reads alone: worlds that
/// show the same at every path read in the one get the same plan.
pub proof fn lemma_apply_reads_suffice(
    a: World,
    b: World,
    files: Seq<Seq<char>>,
    folders: Seq<Seq<char>>,
    instances_dir: Seq<char>,
    synced_dir: Seq<char>,
    root: Seq<char>,
    relatives: Seq<Option<Seq<char>>>,
)
    requires
        same_on(a, b, apply_reads(a, files, folders, instances_dir, synced_dir, root)),
    ensures
        plan_for(a, files, folders, instances_dir, synced_dir, root, relatives) == plan_for(
            b,
            files,
            folders,
            instances_dir,
            synced_dir,
            root,
            relatives,
        ),
{
    let fallback = resolve(synced_dir, fallback_name());
    let head = seq![with_entries(root), with_entries(instances_dir), with_text(fallback)];
    let children = listed(a, root);
    let copies = options_reads(a, files, instances_dir);
    let roots = listed_roots(a, instances_dir);
    let others = copy_reads(roots, files);
    let own = names_places(seq![root], folders);
    lemma_same_on_concat(a, b, head + children + copies + others, own);
    lemma_same_on_concat(a, b, head + children + copies, others);
    lemma_same_on_concat(a, b, head + children, copies);
    lemma_same_on_concat(a, b, head, children);
    assert(same_at(a, b, head[0]) && same_at(a, b, head[1]) && same_at(a, b, head[2]));
    assert(facts_at(a, root).entries == facts_at(b, root).entries);
    assert(facts_at(a, instances_dir).entries == facts_at(b, instances_dir).entries);
    assert(facts_at(a, fallback).content == facts_at(b, fallback).content);

    // The cleanup.
    assert(cleanup_pass(a, folders, synced_dir, root, relatives) == cleanup_pass(
        b,
        folders,
        synced_dir,
        root,
        relatives,
    )) by {
        if let Some(entries) = facts_at(a, root).entries {
            assert forall|i: int| 0 <= i < entries.len() implies facts_at(
                a,
                #[trigger] entries[i],
            ).link_target == facts_at(b, entries[i]).link_target by {
                assert(same_at(a, b, children[i]));
            }
            lemma_cleanup_reads(a, b, folders, synced_dir, entries, relatives);
        }
    }

    // The folder targets.
    assert forall|k: int| 0 <= k < folders.len() implies folder_steps(
        a,
        synced_dir,
        root,
        #[trigger] folders[k],
    ) == folder_steps(b, synced_dir, root, folders[k]) by {
        lemma_names_places_each(a, b, seq![root], folders, k);
        if is_safe(folders[k]) {
            let at = places(seq![root], normalized(folders[k]));
            assert(same_at(a, b, at[0]));
        }
    }
    lemma_folder_steps_each(a, b, synced_dir, root, folders);

    // The file targets.
    assert forall|k: int| 0 <= k < files.len() implies file_steps(
        a,
        instances_dir,
        synced_dir,
        root,
        #[trigger] files[k],
    ) == file_steps(b, instances_dir, synced_dir, root, files[k]) by {
        let name = files[k];
        if name == options_name() {
            assert(files.contains(options_name()));
            if let Some(entries) = facts_at(a, instances_dir).entries {
                assert forall|i: int| 0 <= i < entries.len() implies copy_at(a, entries[i])
                    == copy_at(b, entries[i]) by {
                    assert(same_at(a, b, copies[i]));
                    assert(copies[i].path == place_in(entries[i], options_name()));
                }
                assert(copies_in(a, instances_dir)->0 =~= copies_in(b, instances_dir)->0);
            }
        } else if is_safe(name) {
            let rel = normalized(name);
            lemma_copy_reads_each(a, b, roots, files, k);
            if let Some(entries) = facts_at(a, instances_dir).entries {
                let at = places(roots, rel);
                assert forall|i: int| 0 <= i < entries.len() implies facts_at(
                    a,
                    place_in(#[trigger] entries[i], rel),
                ).stamp == facts_at(b, place_in(entries[i], rel)).stamp by {
                    assert(same_at(a, b, at[i]));
                    assert(at[i].path == place_in(entries[i], rel));
                }
                lemma_newest_reads(a, b, entries, rel);
            }
        }
    }
    lemma_file_steps_each(a, b, instances_dir, synced_dir, root, files);
}

} // verus!
