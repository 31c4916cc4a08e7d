//! Bringing an instance in line twice.
//!
//! Once a plan has been carried out, the plan made from the world it left
//! changes nothing more. Of the cleanup and of the folder targets this is
//! shown against the effects that `model` describes. Of the file targets it
//! is shown for the state that copying and writing leave behind, in which
//! the file just written is the youngest: such a file is not copied again,
//! and the options merge gives the same text again (see `merge_laws`).

use vstd::prelude::*;
use crate::model::{
    after_step, all_fill, completes, fills, lemma_run_concat, lemma_run_keeps_taken, occupied, run,
    stops,
};
use crate::observe::{facts_at, Facts, World};
use crate::plan::{best_effort, ActionModel, Policy, StepModel};
use crate::latest::{lemma_newest_among, newest, newest_among, place_in, root_name};
use crate::reconcile::{
    all_file_steps, all_folder_steps, cleanup_of, cleanup_pass, cleanup_steps, file_steps,
    folder_steps, left_over, options_name, plan_for,
};
use crate::safe_path::{is_safe, normalized, resolve};

verus! {

/// The place that an action fills, for an action that creates a directory
/// or a link.
pub open spec fn filled_path(action: ActionModel) -> Seq<char> {
    match action {
        ActionModel::CreateDirAll { path } => path,
        ActionModel::LinkDir { original, link } => link,
        _ => Seq::empty(),
    }
}

/// Whether every step of `steps` is best effort.
pub open spec fn all_best_effort(steps: Seq<StepModel>) -> bool {
    forall|i: int| 0 <= i < steps.len() ==> (#[trigger] steps[i]).policy == Policy::BestEffort
}

/// After best-effort steps that only fill free places, the place of each of
/// them is taken, whether the step succeeded or not.
proof fn lemma_filled_places_are_taken(world: World, steps: Seq<StepModel>, at: int)
    requires
        all_fill(steps),
        all_best_effort(steps),
        0 <= at < steps.len(),
    ensures
        occupied(run(world, steps), filled_path(steps[at].action)),
    decreases steps.len(),
{
    let first = steps[0];
    let rest = steps.drop_first();
    let w1 = after_step(world, first);
    assert(fills(first.action) && first.policy == Policy::BestEffort);
    assert forall|i: int| 0 <= i < rest.len() implies fills((#[trigger] rest[i]).action)
        && rest[i].policy == Policy::BestEffort by {
        assert(rest[i] == steps[i + 1]);
    }
    if at == 0 {
        assert(occupied(w1, filled_path(first.action)));
        lemma_run_keeps_taken(w1, rest, filled_path(first.action));
    } else {
        assert(rest[at - 1] == steps[at]);
        lemma_filled_places_are_taken(w1, rest, at - 1);
    }
}

/// Steps that only fill free places change nothing where all their places
/// are taken.
proof fn lemma_filling_taken_places_changes_nothing(world: World, steps: Seq<StepModel>)
    requires
        all_fill(steps),
        forall|i: int|
            0 <= i < steps.len() ==> occupied(world, filled_path((#[trigger] steps[i]).action)),
    ensures
        run(world, steps) == world,
    decreases steps.len(),
{
    if steps.len() > 0 && !stops(world, steps[0]) {
        let rest = steps.drop_first();
        assert(fills(steps[0].action));
        assert(occupied(world, filled_path(steps[0].action)));
        assert(after_step(world, steps[0]) == world);
        assert forall|i: int| 0 <= i < rest.len() implies fills((#[trigger] rest[i]).action)
            && occupied(world, filled_path(rest[i].action)) by {
            assert(rest[i] == steps[i + 1]);
        }
        lemma_filling_taken_places_changes_nothing(world, rest);
    }
}

/// Each step for the folder targets is a step for one of them, and each
/// step for one of them is among the steps for all.
proof fn lemma_folder_steps_members(
    world: World,
    synced_dir: Seq<char>,
    root: Seq<char>,
    folders: Seq<Seq<char>>,
)
    ensures
        forall|j: int|
            0 <= j < all_folder_steps(world, synced_dir, root, folders).len() ==> exists|k: int|
                0 <= k < folders.len() && folder_steps(
                    world,
                    synced_dir,
                    root,
                    #[trigger] folders[k],
                ).contains(#[trigger] all_folder_steps(world, synced_dir, root, folders)[j]),
        forall|k: int, step: StepModel|
            0 <= k < folders.len() && folder_steps(
                world,
                synced_dir,
                root,
                #[trigger] folders[k],
            ).contains(step) ==> #[trigger] all_folder_steps(
                world,
                synced_dir,
                root,
                folders,
            ).contains(step),
    decreases folders.len(),
{
    if folders.len() > 0 {
        let shorter = folders.drop_last();
        lemma_folder_steps_members(world, synced_dir, root, shorter);
        let inner = all_folder_steps(world, synced_dir, root, shorter);
        let own = folder_steps(world, synced_dir, root, folders.last());
        let all = all_folder_steps(world, synced_dir, root, folders);
        assert(all == inner + own);
        assert forall|j: int| 0 <= j < all.len() implies exists|k: int|
            0 <= k < folders.len() && folder_steps(
                world,
                synced_dir,
                root,
                #[trigger] folders[k],
            ).contains(#[trigger] all[j]) by {
            if j < inner.len() {
                assert(all[j] == inner[j]);
                let k = choose|k: int|
                    0 <= k < shorter.len() && folder_steps(
                        world,
                        synced_dir,
                        root,
                        #[trigger] shorter[k],
                    ).contains(inner[j]);
                assert(folders[k] == shorter[k]);
            } else {
                assert(all[j] == own[j - inner.len()]);
                assert(folders[folders.len() - 1] == folders.last());
            }
        }
        assert forall|k: int, step: StepModel|
            0 <= k < folders.len() && folder_steps(
                world,
                synced_dir,
                root,
                #[trigger] folders[k],
            ).contains(step) implies #[trigger] all.contains(step) by {
            if k < shorter.len() {
                assert(folders[k] == shorter[k]);
                assert(inner.contains(step));
                let j = choose|j: int| 0 <= j < inner.len() && inner[j] == step;
                assert(all[j] == step);
            } else {
                let j = choose|j: int| 0 <= j < own.len() && own[j] == step;
                assert(all[inner.len() + j] == step);
            }
        }
    }
}

/// The steps for one folder target are best effort and only fill free
/// places.
proof fn lemma_folder_steps_fill(world: World, synced_dir: Seq<char>, root: Seq<char>, name: Seq<char>)
    ensures
        all_fill(folder_steps(world, synced_dir, root, name)),
        all_best_effort(folder_steps(world, synced_dir, root, name)),
{
}

/// Linking the folder targets a second time changes nothing: once the
/// folder steps of a plan have been carried out, the folder steps planned
/// from the world they left leave that world as it is.
pub proof fn lemma_folders_settle(
    world: World,
    synced_dir: Seq<char>,
    root: Seq<char>,
    folders: Seq<Seq<char>>,
)
    ensures
        ({
            let after = run(world, all_folder_steps(world, synced_dir, root, folders));
            run(after, all_folder_steps(after, synced_dir, root, folders)) == after
        }),
{
    let first = all_folder_steps(world, synced_dir, root, folders);
    let after = run(world, first);
    let second = all_folder_steps(after, synced_dir, root, folders);
    lemma_folder_steps_members(world, synced_dir, root, folders);
    lemma_folder_steps_members(after, synced_dir, root, folders);
    assert(all_fill(first) && all_best_effort(first)) by {
        assert forall|j: int| 0 <= j < first.len() implies fills((#[trigger] first[j]).action)
            && first[j].policy == Policy::BestEffort by {
            let k = choose|k: int|
                0 <= k < folders.len() && folder_steps(
                    world,
                    synced_dir,
                    root,
                    #[trigger] folders[k],
                ).contains(first[j]);
            lemma_folder_steps_fill(world, synced_dir, root, folders[k]);
            let own = folder_steps(world, synced_dir, root, folders[k]);
            let i = choose|i: int| 0 <= i < own.len() && own[i] == first[j];
            assert(fills(own[i].action));
        }
    }
    assert forall|j: int| 0 <= j < second.len() implies fills((#[trigger] second[j]).action)
        && occupied(after, filled_path(second[j].action)) by {
        let k = choose|k: int|
            0 <= k < folders.len() && folder_steps(
                after,
                synced_dir,
                root,
                #[trigger] folders[k],
            ).contains(second[j]);
        let name = folders[k];
        let own = folder_steps(after, synced_dir, root, name);
        let i = choose|i: int| 0 <= i < own.len() && own[i] == second[j];
        lemma_folder_steps_fill(after, synced_dir, root, name);
        assert(fills(own[i].action));
        let place = resolve(root, normalized(name));
        assert(!facts_at(after, place).present);
        if facts_at(world, place).present {
            lemma_run_keeps_taken(world, first, place);
        }
        assert(folder_steps(world, synced_dir, root, name) == own);
        assert(first.contains(second[j]));
        let at = choose|at: int| 0 <= at < first.len() && first[at] == second[j];
        lemma_filled_places_are_taken(world, first, at);
    }
    lemma_filling_taken_places_changes_nothing(after, second);
}

/// Whether every step of `steps` is the best-effort removal of a link.
pub open spec fn all_removals(steps: Seq<StepModel>) -> bool {
    forall|i: int|
        0 <= i < steps.len() ==> (#[trigger] steps[i]).action is RemoveLink && steps[i].policy
            == Policy::BestEffort
}

/// After removals, every path is as it was or empty, and no path that a
/// removal names is a link.
proof fn lemma_removals_done(world: World, steps: Seq<StepModel>, path: Seq<char>)
    requires
        all_removals(steps),
    ensures
        facts_at(run(world, steps), path) == facts_at(world, path) || facts_at(
            run(world, steps),
            path,
        ) == Facts::absent(),
        (exists|i: int|
            0 <= i < steps.len() && (#[trigger] steps[i]).action == (ActionModel::RemoveLink {
                path,
            })) ==> facts_at(run(world, steps), path).link_target is None,
    decreases steps.len(),
{
    if steps.len() > 0 {
        let first = steps[0];
        let rest = steps.drop_first();
        assert(first.action is RemoveLink && first.policy == Policy::BestEffort);
        let w1 = after_step(world, first);
        assert forall|i: int| 0 <= i < rest.len() implies (#[trigger] rest[i]).action is RemoveLink
            && rest[i].policy == Policy::BestEffort by {
            assert(rest[i] == steps[i + 1]);
        }
        lemma_removals_done(w1, rest, path);
        if exists|i: int|
            0 <= i < steps.len() && (#[trigger] steps[i]).action == (ActionModel::RemoveLink {
                path,
            }) {
            let i = choose|i: int|
                0 <= i < steps.len() && (#[trigger] steps[i]).action == (ActionModel::RemoveLink {
                    path,
                });
            if i > 0 {
                assert(rest[i - 1] == steps[i]);
            }
        }
    }
}

/// The cleanup steps are removals; each removes an entry that is left over,
/// and every entry that is left over is removed.
proof fn lemma_cleanup_members(
    world: World,
    folders: Seq<Seq<char>>,
    synced_dir: Seq<char>,
    entries: Seq<Seq<char>>,
    relatives: Seq<Option<Seq<char>>>,
)
    requires
        relatives.len() == entries.len(),
    ensures
        all_removals(cleanup_steps(world, folders, synced_dir, entries, relatives)),
        forall|i: int|
            0 <= i < entries.len() && left_over(
                world,
                folders,
                synced_dir,
                #[trigger] entries[i],
                relatives[i],
            ) ==> cleanup_steps(world, folders, synced_dir, entries, relatives).contains(
                best_effort(ActionModel::RemoveLink { path: entries[i] }),
            ),
        (forall|i: int|
            0 <= i < entries.len() ==> !left_over(
                world,
                folders,
                synced_dir,
                #[trigger] entries[i],
                relatives[i],
            )) ==> cleanup_steps(world, folders, synced_dir, entries, relatives) == Seq::<
            StepModel,
        >::empty(),
    decreases entries.len(),
{
    if entries.len() > 0 {
        let es = entries.drop_last();
        let rs = relatives.drop_last();
        lemma_cleanup_members(world, folders, synced_dir, es, rs);
        let inner = cleanup_steps(world, folders, synced_dir, es, rs);
        let own = cleanup_of(world, folders, synced_dir, entries.last(), relatives.last());
        let all = cleanup_steps(world, folders, synced_dir, entries, relatives);
        assert(all == inner + own);
        assert forall|j: int| 0 <= j < all.len() implies (#[trigger] all[j]).action is RemoveLink
            && all[j].policy == Policy::BestEffort by {
            if j < inner.len() {
                assert(all[j] == inner[j]);
            } else {
                assert(all[j] == own[j - inner.len()]);
            }
        }
        assert forall|i: int|
            0 <= i < entries.len() && left_over(
                world,
                folders,
                synced_dir,
                #[trigger] entries[i],
                relatives[i],
            ) implies all.contains(best_effort(ActionModel::RemoveLink { path: entries[i] })) by {
            let step = best_effort(ActionModel::RemoveLink { path: entries[i] });
            if i < es.len() {
                assert(es[i] == entries[i] && rs[i] == relatives[i]);
                assert(inner.contains(step));
                let j = choose|j: int| 0 <= j < inner.len() && inner[j] == step;
                assert(all[j] == step);
            } else {
                assert(own[0] == step);
                assert(all[inner.len() as int] == step);
            }
        }
        if forall|i: int|
            0 <= i < entries.len() ==> !left_over(
                world,
                folders,
                synced_dir,
                #[trigger] entries[i],
                relatives[i],
            ) {
            assert forall|i: int| 0 <= i < es.len() implies !left_over(
                world,
                folders,
                synced_dir,
                #[trigger] es[i],
                rs[i],
            ) by {
                assert(es[i] == entries[i] && rs[i] == relatives[i]);
            }
            assert(!left_over(
                world,
                folders,
                synced_dir,
                entries[entries.len() - 1],
                relatives[entries.len() - 1],
            ));
            assert(all =~= Seq::<StepModel>::empty());
        }
    }
}

/// Cleaning up a second time finds nothing to remove: once the cleanup of a
/// plan has been carried out, the cleanup planned from the world it left,
/// with the same relative paths, is empty.
pub proof fn lemma_cleanup_settles(
    world: World,
    folders: Seq<Seq<char>>,
    synced_dir: Seq<char>,
    root: Seq<char>,
    relatives: Seq<Option<Seq<char>>>,
)
    ensures
        cleanup_pass(
            run(world, cleanup_pass(world, folders, synced_dir, root, relatives)),
            folders,
            synced_dir,
            root,
            relatives,
        ) == Seq::<StepModel>::empty(),
{
    let first = cleanup_pass(world, folders, synced_dir, root, relatives);
    let after = run(world, first);
    match facts_at(world, root).entries {
        None => {
            assert(first == Seq::<StepModel>::empty());
            assert(after == world);
        },
        Some(entries) => {
            if relatives.len() == entries.len() {
                lemma_cleanup_members(world, folders, synced_dir, entries, relatives);
                lemma_removals_done(world, first, root);
                if facts_at(after, root).entries is Some {
                    assert(facts_at(after, root).entries == Some(entries));
                    assert forall|i: int| 0 <= i < entries.len() implies !left_over(
                        after,
                        folders,
                        synced_dir,
                        #[trigger] entries[i],
                        relatives[i],
                    ) by {
                        lemma_removals_done(world, first, entries[i]);
                        if left_over(world, folders, synced_dir, entries[i], relatives[i]) {
                            let step = best_effort(ActionModel::RemoveLink { path: entries[i] });
                            assert(first.contains(step));
                            let j = choose|j: int| 0 <= j < first.len() && first[j] == step;
                            assert(first[j].action == (ActionModel::RemoveLink {
                                path: entries[i],
                            }));
                        }
                    }
                    lemma_cleanup_members(after, folders, synced_dir, entries, relatives);
                }
            } else {
                assert(first == Seq::<StepModel>::empty());
                assert(after == world);
            }
        },
    }
}

/// Steps that are all best effort are all carried out.
proof fn lemma_best_effort_completes(world: World, steps: Seq<StepModel>)
    requires
        all_best_effort(steps),
    ensures
        completes(world, steps),
    decreases steps.len(),
{
    if steps.len() > 0 {
        let rest = steps.drop_first();
        assert(steps[0].policy == Policy::BestEffort);
        assert forall|i: int| 0 <= i < rest.len() implies (#[trigger] rest[i]).policy
            == Policy::BestEffort by {
            assert(rest[i] == steps[i + 1]);
        }
        lemma_best_effort_completes(after_step(world, steps[0]), rest);
    }
}

/// Removals leave a path as it was unless one of them names it.
proof fn lemma_removals_spare_others(world: World, steps: Seq<StepModel>, path: Seq<char>)
    requires
        all_removals(steps),
        forall|i: int|
            0 <= i < steps.len() ==> (#[trigger] steps[i]).action != (ActionModel::RemoveLink {
                path,
            }),
    ensures
        facts_at(run(world, steps), path) == facts_at(world, path),
    decreases steps.len(),
{
    if steps.len() > 0 {
        let first = steps[0];
        let rest = steps.drop_first();
        assert(first.action is RemoveLink && first.policy == Policy::BestEffort);
        assert(first.action != (ActionModel::RemoveLink { path }));
        assert forall|i: int| 0 <= i < rest.len() implies (#[trigger] rest[i]).action is RemoveLink
            && rest[i].policy == Policy::BestEffort && rest[i].action != (ActionModel::RemoveLink {
            path,
        }) by {
            assert(rest[i] == steps[i + 1]);
        }
        lemma_removals_spare_others(after_step(world, first), rest, path);
    }
}

/// After steps that only fill free places, a path that is a link either was
/// that link before or is the link of one of the steps.
proof fn lemma_links_after_filling(world: World, steps: Seq<StepModel>, path: Seq<char>)
    requires
        all_fill(steps),
        facts_at(run(world, steps), path).link_target is Some,
    ensures
        facts_at(world, path).link_target == facts_at(run(world, steps), path).link_target
            || exists|i: int|
            0 <= i < steps.len() && (#[trigger] steps[i]).action == (ActionModel::LinkDir {
                original: facts_at(run(world, steps), path).link_target->0,
                link: path,
            }),
    decreases steps.len(),
{
    if steps.len() > 0 && !stops(world, steps[0]) {
        let first = steps[0];
        let rest = steps.drop_first();
        let w1 = after_step(world, first);
        assert(fills(first.action));
        assert forall|i: int| 0 <= i < rest.len() implies fills((#[trigger] rest[i]).action) by {
            assert(rest[i] == steps[i + 1]);
        }
        lemma_links_after_filling(w1, rest, path);
        let target = facts_at(run(world, steps), path).link_target;
        if facts_at(w1, path).link_target == target {
            if facts_at(world, path).link_target != target {
                assert(first.action == (ActionModel::LinkDir { original: target->0, link: path }));
            }
        } else {
            let i = choose|i: int|
                0 <= i < rest.len() && (#[trigger] rest[i]).action == (ActionModel::LinkDir {
                    original: target->0,
                    link: path,
                });
            assert(steps[i + 1] == rest[i]);
        }
    }
}

/// Each cleanup step removes an entry that is left over.
proof fn lemma_cleanup_steps_are_left_over(
    world: World,
    folders: Seq<Seq<char>>,
    synced_dir: Seq<char>,
    entries: Seq<Seq<char>>,
    relatives: Seq<Option<Seq<char>>>,
)
    requires
        relatives.len() == entries.len(),
    ensures
        forall|j: int|
            0 <= j < cleanup_steps(world, folders, synced_dir, entries, relatives).len()
                ==> exists|i: int|
                0 <= i < entries.len() && left_over(
                    world,
                    folders,
                    synced_dir,
                    #[trigger] entries[i],
                    relatives[i],
                ) && (#[trigger] cleanup_steps(
                    world,
                    folders,
                    synced_dir,
                    entries,
                    relatives,
                )[j]).action == (ActionModel::RemoveLink { path: entries[i] }),
    decreases entries.len(),
{
    if entries.len() > 0 {
        let es = entries.drop_last();
        let rs = relatives.drop_last();
        lemma_cleanup_steps_are_left_over(world, folders, synced_dir, es, rs);
        let inner = cleanup_steps(world, folders, synced_dir, es, rs);
        let own = cleanup_of(world, folders, synced_dir, entries.last(), relatives.last());
        let all = cleanup_steps(world, folders, synced_dir, entries, relatives);
        assert(all == inner + own);
        assert forall|j: int| 0 <= j < all.len() implies exists|i: int|
            0 <= i < entries.len() && left_over(
                world,
                folders,
                synced_dir,
                #[trigger] entries[i],
                relatives[i],
            ) && (#[trigger] all[j]).action == (ActionModel::RemoveLink { path: entries[i] }) by {
            if j < inner.len() {
                assert(all[j] == inner[j]);
                let i = choose|i: int|
                    0 <= i < es.len() && left_over(
                        world,
                        folders,
                        synced_dir,
                        #[trigger] es[i],
                        rs[i],
                    ) && inner[j].action == (ActionModel::RemoveLink { path: es[i] });
                assert(entries[i] == es[i] && relatives[i] == rs[i]);
            } else {
                let last = entries.len() - 1;
                assert(all[j] == own[j - inner.len()]);
                assert(entries[last] == entries.last() && relatives[last] == relatives.last());
                assert(left_over(world, folders, synced_dir, entries[last], relatives[last]));
            }
        }
    }
}

/// Whether the relative paths are the right ones for the configured
/// folders: an entry of the instance root that is the place of a configured
/// folder has a relative path that is a configured folder.
pub open spec fn relatives_fit(
    folders: Seq<Seq<char>>,
    root: Seq<char>,
    entries: Seq<Seq<char>>,
    relatives: Seq<Option<Seq<char>>>,
) -> bool {
    forall|i: int, k: int|
        0 <= i < entries.len() && i < relatives.len() && 0 <= k < folders.len() && is_safe(
            #[trigger] folders[k],
        ) && #[trigger] entries[i] == resolve(root, normalized(folders[k])) ==> relatives[i]
            is Some && folders.contains(relatives[i]->0)
}

/// Bringing an instance in line a second time changes nothing, where no
/// file targets are configured: once the plan has been carried out, the
/// plan made from the world it left leaves that world as it is. This is
/// said of relative paths that fit the configured folders, and of a root
/// that is not listed among its own entries.
pub proof fn lemma_apply_twice_changes_nothing(
    world: World,
    folders: Seq<Seq<char>>,
    instances_dir: Seq<char>,
    synced_dir: Seq<char>,
    root: Seq<char>,
    relatives: Seq<Option<Seq<char>>>,
)
    requires
        root.len() > 0,
        facts_at(world, root).entries matches Some(entries) ==> !entries.contains(root)
            && relatives_fit(folders, root, entries, relatives),
    ensures
        ({
            let none = Seq::<Seq<char>>::empty();
            let after = run(
                world,
                plan_for(world, none, folders, instances_dir, synced_dir, root, relatives),
            );
            run(after, plan_for(after, none, folders, instances_dir, synced_dir, root, relatives))
                == after
        }),
{
    let none = Seq::<Seq<char>>::empty();
    let create = seq![best_effort(ActionModel::CreateDirAll { path: root })];
    let clean1 = cleanup_pass(world, folders, synced_dir, root, relatives);
    let link1 = all_folder_steps(world, synced_dir, root, folders);
    let plan1 = plan_for(world, none, folders, instances_dir, synced_dir, root, relatives);
    assert(all_file_steps(world, instances_dir, synced_dir, root, none) == Seq::<
        StepModel,
    >::empty());
    assert(plan1 =~= create + clean1 + link1);
    assert(all_fill(create) && all_best_effort(create));

    // The cleanup steps are removals of left-over entries.
    let listing = facts_at(world, root).entries;
    assert(all_removals(clean1)) by {
        if let Some(entries) = listing {
            if relatives.len() == entries.len() {
                lemma_cleanup_members(world, folders, synced_dir, entries, relatives);
            }
        }
    }
    assert(all_best_effort(clean1));

    // The folder steps fill free places, best effort.
    lemma_folder_steps_members(world, synced_dir, root, folders);
    assert(all_fill(link1) && all_best_effort(link1)) by {
        assert forall|j: int| 0 <= j < link1.len() implies fills((#[trigger] link1[j]).action)
            && link1[j].policy == Policy::BestEffort by {
            let k = choose|k: int|
                0 <= k < folders.len() && folder_steps(
                    world,
                    synced_dir,
                    root,
                    #[trigger] folders[k],
                ).contains(link1[j]);
            let own = folder_steps(world, synced_dir, root, folders[k]);
            let i = choose|i: int| 0 <= i < own.len() && own[i] == link1[j];
            assert(fills(own[i].action));
        }
    }

    // The three parts are carried out one after the other.
    lemma_best_effort_completes(world, create);
    let w1 = run(world, create);
    lemma_best_effort_completes(w1, clean1);
    let w2 = run(w1, clean1);
    lemma_run_concat(world, create, clean1);
    lemma_best_effort_completes(world, create + clean1);
    lemma_run_concat(world, create + clean1, link1);
    let after = run(w2, link1);
    assert(run(world, plan1) == after);

    // The root is taken from the first step on, and stays as that step left it.
    lemma_filled_places_are_taken(world, create, 0);
    assert(occupied(w1, root));
    assert(facts_at(w2, root) == facts_at(w1, root)) by {
        assert forall|j: int| 0 <= j < clean1.len() implies (#[trigger] clean1[j]).action != (
        ActionModel::RemoveLink { path: root }) by {
            let entries = listing->0;
            lemma_cleanup_steps_are_left_over(world, folders, synced_dir, entries, relatives);
            let i = choose|i: int|
                0 <= i < entries.len() && left_over(
                    world,
                    folders,
                    synced_dir,
                    #[trigger] entries[i],
                    relatives[i],
                ) && clean1[j].action == (ActionModel::RemoveLink { path: entries[i] });
            assert(entries.contains(entries[i]));
        }
        lemma_removals_spare_others(w1, clean1, root);
    }
    lemma_run_keeps_taken(w2, link1, root);
    assert(facts_at(after, root) == facts_at(w1, root));

    // A path other than the root is untouched by the first step.
    assert forall|path: Seq<char>| path != root implies #[trigger] facts_at(w1, path) == facts_at(
        world,
        path,
    ) by {
        assert(create[0] == best_effort(ActionModel::CreateDirAll { path: root }));
        assert(create.drop_first() =~= Seq::<StepModel>::empty());
        assert(run(after_step(world, create[0]), create.drop_first()) == after_step(
            world,
            create[0],
        ));
    }

    // A configured folder whose place was taken keeps what it had.
    assert forall|k: int|
        0 <= k < folders.len() && is_safe(#[trigger] folders[k]) && facts_at(
            world,
            resolve(root, normalized(folders[k])),
        ).present implies facts_at(after, resolve(root, normalized(folders[k]))).present by {
        let place = resolve(root, normalized(folders[k]));
        assert(place.len() > root.len());
        assert(facts_at(w1, place) == facts_at(world, place));
        assert forall|j: int| 0 <= j < clean1.len() implies (#[trigger] clean1[j]).action != (
        ActionModel::RemoveLink { path: place }) by {
            let entries = listing->0;
            lemma_cleanup_steps_are_left_over(world, folders, synced_dir, entries, relatives);
            let i = choose|i: int|
                0 <= i < entries.len() && left_over(
                    world,
                    folders,
                    synced_dir,
                    #[trigger] entries[i],
                    relatives[i],
                ) && clean1[j].action == (ActionModel::RemoveLink { path: entries[i] });
            if entries[i] == place {
                assert(relatives[i] is Some && folders.contains(relatives[i]->0));
            }
        }
        lemma_removals_spare_others(w1, clean1, place);
        lemma_run_keeps_taken(w2, link1, place);
    }

    // The second plan.
    let clean2 = cleanup_pass(after, folders, synced_dir, root, relatives);
    let link2 = all_folder_steps(after, synced_dir, root, folders);
    let plan2 = plan_for(after, none, folders, instances_dir, synced_dir, root, relatives);
    assert(all_file_steps(after, instances_dir, synced_dir, root, none) == Seq::<
        StepModel,
    >::empty());

    // Its cleanup finds nothing.
    assert(clean2 == Seq::<StepModel>::empty()) by {
        if occupied(world, root) {
            lemma_run_keeps_taken(world, create, root);
            assert(facts_at(w1, root) == facts_at(world, root));
            if let Some(entries) = listing {
                if relatives.len() == entries.len() {
                    lemma_cleanup_members(world, folders, synced_dir, entries, relatives);
                    assert forall|i: int| 0 <= i < entries.len() implies !left_over(
                        after,
                        folders,
                        synced_dir,
                        #[trigger] entries[i],
                        relatives[i],
                    ) by {
                        let entry = entries[i];
                        assert(entries.contains(entry));
                        if left_over(after, folders, synced_dir, entry, relatives[i]) {
                            let target = facts_at(after, entry).link_target;
                            lemma_links_after_filling(w2, link1, entry);
                            if facts_at(w2, entry).link_target == target {
                                lemma_removals_done(w1, clean1, entry);
                                assert(facts_at(w2, entry) == facts_at(w1, entry));
                                assert(facts_at(w1, entry) == facts_at(world, entry));
                                assert(left_over(world, folders, synced_dir, entry, relatives[i]));
                                let step = best_effort(ActionModel::RemoveLink { path: entry });
                                assert(clean1.contains(step));
                                let j = choose|j: int| 0 <= j < clean1.len() && clean1[j] == step;
                                assert(clean1[j].action == (ActionModel::RemoveLink {
                                    path: entry,
                                }));
                            } else {
                                let j = choose|j: int|
                                    0 <= j < link1.len() && (#[trigger] link1[j]).action == (
                                    ActionModel::LinkDir { original: target->0, link: entry });
                                let k = choose|k: int|
                                    0 <= k < folders.len() && folder_steps(
                                        world,
                                        synced_dir,
                                        root,
                                        #[trigger] folders[k],
                                    ).contains(link1[j]);
                                let own = folder_steps(world, synced_dir, root, folders[k]);
                                let at = choose|at: int| 0 <= at < own.len() && own[at] == link1[j];
                                assert(entry == resolve(root, normalized(folders[k])));
                                assert(relatives[i] is Some && folders.contains(relatives[i]->0));
                            }
                        }
                    }
                    lemma_cleanup_members(after, folders, synced_dir, entries, relatives);
                }
            }
        } else {
            assert(facts_at(w1, root) == crate::model::fresh_dir()) by {
                assert(create[0] == best_effort(ActionModel::CreateDirAll { path: root }));
                assert(create.drop_first() =~= Seq::<StepModel>::empty());
                assert(run(after_step(world, create[0]), create.drop_first()) == after_step(
                    world,
                    create[0],
                ));
            }
            assert(facts_at(after, root).entries == Some(Seq::<Seq<char>>::empty()));
        }
    }
    assert(plan2 =~= create + link2);

    // Its other steps fill places that are taken.
    lemma_folder_steps_members(after, synced_dir, root, folders);
    assert forall|j: int| 0 <= j < plan2.len() implies fills((#[trigger] plan2[j]).action)
        && occupied(after, filled_path(plan2[j].action)) by {
        if j == 0 {
            assert(plan2[0] == create[0]);
        } else {
            assert(plan2[j] == link2[j - 1]);
            let step = link2[j - 1];
            let k = choose|k: int|
                0 <= k < folders.len() && folder_steps(
                    after,
                    synced_dir,
                    root,
                    #[trigger] folders[k],
                ).contains(step);
            let name = folders[k];
            let own = folder_steps(after, synced_dir, root, name);
            let i = choose|i: int| 0 <= i < own.len() && own[i] == step;
            assert(fills(own[i].action));
            assert(is_safe(name));
            assert(!facts_at(after, resolve(root, normalized(name))).present);
            assert(!facts_at(world, resolve(root, normalized(name))).present);
            assert(folder_steps(world, synced_dir, root, name) == own);
            assert(link1.contains(step));
            let at = choose|at: int| 0 <= at < link1.len() && link1[at] == step;
            lemma_filled_places_are_taken(w2, link1, at);
        }
    }
    lemma_filling_taken_places_changes_nothing(after, plan2);
}

/// A file whose copy in the instance is the youngest of all is not copied:
/// where the instance is listed and every other instance's copy is strictly
/// older than its own, the file gets no step. After a copy has been made
/// this is how things stand, as long as the copy is stamped with the time
/// at which it was made.
pub proof fn lemma_youngest_own_copy_is_kept(
    world: World,
    instances_dir: Seq<char>,
    synced_dir: Seq<char>,
    entry: Seq<char>,
    name: Seq<char>,
)
    requires
        name != options_name(),
        is_safe(name),
        facts_at(world, instances_dir).entries matches Some(entries) && entries.contains(entry),
        facts_at(world, place_in(entry, normalized(name))).stamp is Some,
        forall|i: int|
            0 <= i < facts_at(world, instances_dir).entries->0.len() ==> {
                let other = place_in(
                    #[trigger] facts_at(world, instances_dir).entries->0[i],
                    normalized(name),
                );
                other == place_in(entry, normalized(name)) || (facts_at(
                    world,
                    other,
                ).stamp matches Some(s) ==> s < facts_at(
                    world,
                    place_in(entry, normalized(name)),
                ).stamp->0)
            },
    ensures
        file_steps(world, instances_dir, synced_dir, resolve(entry, root_name()), name) == Seq::<
            StepModel,
        >::empty(),
{
    let rel = normalized(name);
    let entries = facts_at(world, instances_dir).entries->0;
    let own = place_in(entry, rel);
    let mine = facts_at(world, own).stamp->0;
    lemma_newest_among(world, entries, rel);
    let at = choose|at: int| 0 <= at < entries.len() && entries[at] == entry;
    assert(facts_at(world, place_in(entries[at], rel)).stamp is Some);
    let best = newest_among(world, entries, rel)->0;
    let won = choose|won: int|
        {
            &&& 0 <= won < entries.len()
            &&& best.1 == #[trigger] place_in(entries[won], rel)
            &&& facts_at(world, best.1).stamp == Some(best.0)
            &&& forall|i: int|
                0 <= i < entries.len() ==> (facts_at(
                    world,
                    #[trigger] place_in(entries[i], rel),
                ).stamp matches Some(s) ==> s <= best.0)
            &&& forall|i: int|
                0 <= i < won ==> (facts_at(
                    world,
                    #[trigger] place_in(entries[i], rel),
                ).stamp matches Some(s) ==> s < best.0)
        };
    assert(mine <= best.0) by {
        assert(facts_at(world, place_in(entries[at], rel)).stamp == Some(mine));
    }
    assert(best.1 == own) by {
        let other = place_in(entries[won], rel);
        if other != own {
            assert(best.0 < mine);
        }
    }
    assert(newest(world, instances_dir, rel) == Some(own));
}

} // verus!
