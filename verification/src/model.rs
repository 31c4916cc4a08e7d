//! What carrying out a plan does, as far as the library's promises go.
//!
//! The library plans and its caller acts. To say what a plan achieves, this
//! module describes the effect of each action on a world, and of a list of
//! steps carried out in order under their policies. The laws below are
//! stated against that description.

use vstd::prelude::*;
use crate::linking::targeting;
use crate::observe::{facts_at, Facts, World};
use crate::plan::{ActionModel, Policy, StepModel};

verus! {

/// Whether `path` is taken: something is there, or a link is there, even one
/// that leads nowhere.
pub open spec fn occupied(world: World, path: Seq<char>) -> bool {
    facts_at(world, path).present || facts_at(world, path).link_target is Some
}

/// Whether `path` holds real content: something is there and it is no link.
pub open spec fn real_content(world: World, path: Seq<char>) -> bool {
    facts_at(world, path).present && facts_at(world, path).link_target is None
}

/// What is seen at a directory that has just been created.
pub open spec fn fresh_dir() -> Facts {
    Facts {
        present: true,
        is_dir: true,
        link_target: None,
        stamp: None,
        content: None,
        entries: Some(Seq::empty()),
    }
}

/// What is seen at a link to `original`: the link's target, and through the
/// link what is seen at `original`.
pub open spec fn link_to(world: World, original: Seq<char>) -> Facts {
    let through = facts_at(world, original);
    Facts {
        present: through.present,
        is_dir: through.is_dir,
        link_target: Some(original),
        stamp: through.stamp,
        content: through.content,
        entries: through.entries,
    }
}

/// What is seen at a file that has just been given the text `content`.
pub open spec fn file_with(world: World, path: Seq<char>, content: Option<Seq<char>>) -> Facts {
    Facts {
        present: true,
        is_dir: false,
        link_target: facts_at(world, path).link_target,
        stamp: facts_at(world, path).stamp,
        content,
        entries: None,
    }
}

/// Whether the action succeeds in `world`.
pub open spec fn can(world: World, action: ActionModel) -> bool {
    match action {
        ActionModel::CreateDirAll { path } => !occupied(world, path) || facts_at(world, path).is_dir,
        ActionModel::LinkDir { original, link } => !occupied(world, link),
        ActionModel::UnlinkDirIfTargeting { original, link } => true,
        ActionModel::RemoveLink { path } => facts_at(world, path).link_target is Some,
        ActionModel::WriteFile { path, content } => !facts_at(world, path).is_dir,
        ActionModel::CopyFile { from, to } => facts_at(world, from).present && !facts_at(
            world,
            from,
        ).is_dir && !facts_at(world, to).is_dir,
    }
}

/// The world after the action has succeeded.
pub open spec fn effect(world: World, action: ActionModel) -> World {
    match action {
        ActionModel::CreateDirAll { path } => if occupied(world, path) {
            world
        } else {
            world.insert(path, fresh_dir())
        },
        ActionModel::LinkDir { original, link } => world.insert(link, link_to(world, original)),
        ActionModel::UnlinkDirIfTargeting { original, link } => if targeting(world, original, link) {
            world.insert(link, Facts::absent())
        } else {
            world
        },
        ActionModel::RemoveLink { path } => world.insert(path, Facts::absent()),
        ActionModel::WriteFile { path, content } => world.insert(
            path,
            file_with(world, path, Some(content)),
        ),
        ActionModel::CopyFile { from, to } => world.insert(
            to,
            file_with(world, to, facts_at(world, from).content),
        ),
    }
}

/// The world after the step: changed where its action succeeds, as it was
/// where the action fails.
pub open spec fn after_step(world: World, step: StepModel) -> World {
    if can(world, step.action) {
        effect(world, step.action)
    } else {
        world
    }
}

/// Whether the step ends the operation: it must succeed and does not.
pub open spec fn stops(world: World, step: StepModel) -> bool {
    step.policy == Policy::MustSucceed && !can(world, step.action)
}

/// The world after the steps have been carried out in order, up to the
/// first that ends the operation.
pub open spec fn run(world: World, steps: Seq<StepModel>) -> World
    decreases steps.len(),
{
    if steps.len() == 0 || stops(world, steps[0]) {
        world
    } else {
        run(after_step(world, steps[0]), steps.drop_first())
    }
}

/// Whether all the steps are carried out: none ends the operation.
pub open spec fn completes(world: World, steps: Seq<StepModel>) -> bool
    decreases steps.len(),
{
    steps.len() == 0 || (!stops(world, steps[0]) && completes(
        after_step(world, steps[0]),
        steps.drop_first(),
    ))
}

/// Whether a step of `steps` writes or copies a file to `path`.
pub open spec fn overwrites(steps: Seq<StepModel>, path: Seq<char>) -> bool {
    exists|i: int| 0 <= i < steps.len() && writes_to((#[trigger] steps[i]).action, path)
}

/// Whether the action writes or copies a file to `path`.
pub open spec fn writes_to(action: ActionModel, path: Seq<char>) -> bool {
    match action {
        ActionModel::WriteFile { path: p, content } => p == path,
        ActionModel::CopyFile { from, to } => to == path,
        _ => false,
    }
}

/// Whether the action only ever fills a place that is free: it creates a
/// directory or a link.
pub open spec fn fills(action: ActionModel) -> bool {
    action is CreateDirAll || action is LinkDir
}

/// Whether every step of `steps` only fills free places.
pub open spec fn all_fill(steps: Seq<StepModel>) -> bool {
    forall|i: int| 0 <= i < steps.len() ==> fills((#[trigger] steps[i]).action)
}

/// Carrying out two lists of steps one after the other is carrying out
/// their concatenation.
pub proof fn lemma_run_concat(world: World, first: Seq<StepModel>, second: Seq<StepModel>)
    ensures
        completes(world, first + second) == (completes(world, first) && completes(
            run(world, first),
            second,
        )),
        completes(world, first) ==> run(world, first + second) == run(run(world, first), second),
    decreases first.len(),
{
    if first.len() == 0 {
        assert(first + second =~= second);
    } else {
        let both = first + second;
        assert(both[0] == first[0]);
        assert(both.drop_first() =~= first.drop_first() + second);
        if !stops(world, first[0]) {
            lemma_run_concat(after_step(world, first[0]), first.drop_first(), second);
        }
    }
}

/// One step leaves real content as it was, unless it writes or copies a
/// file to that very path.
pub proof fn lemma_step_spares_content(world: World, step: StepModel, path: Seq<char>)
    requires
        real_content(world, path),
        !writes_to(step.action, path),
    ensures
        facts_at(after_step(world, step), path) == facts_at(world, path),
{
}

/// Carrying out steps leaves real content as it was: no step removes it, and
/// none changes it unless it writes or copies a file to that very path.
pub proof fn lemma_run_spares_content(world: World, steps: Seq<StepModel>, path: Seq<char>)
    requires
        real_content(world, path),
        !overwrites(steps, path),
    ensures
        facts_at(run(world, steps), path) == facts_at(world, path),
    decreases steps.len(),
{
    if steps.len() > 0 && !stops(world, steps[0]) {
        assert(!writes_to(steps[0].action, path));
        lemma_step_spares_content(world, steps[0], path);
        let rest = steps.drop_first();
        assert forall|i: int| 0 <= i < rest.len() implies !writes_to(
            (#[trigger] rest[i]).action,
            path,
        ) by {
            assert(rest[i] == steps[i + 1]);
        }
        lemma_run_spares_content(after_step(world, steps[0]), rest, path);
    }
}

/// Steps that only fill free places leave every taken place as it was.
pub proof fn lemma_run_keeps_taken(world: World, steps: Seq<StepModel>, path: Seq<char>)
    requires
        all_fill(steps),
        occupied(world, path),
    ensures
        facts_at(run(world, steps), path) == facts_at(world, path),
    decreases steps.len(),
{
    if steps.len() > 0 && !stops(world, steps[0]) {
        assert(fills(steps[0].action));
        let rest = steps.drop_first();
        assert forall|i: int| 0 <= i < rest.len() implies fills((#[trigger] rest[i]).action) by {
            assert(rest[i] == steps[i + 1]);
        }
        lemma_run_keeps_taken(after_step(world, steps[0]), rest, path);
    }
}

} // verus!
