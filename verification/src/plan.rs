//! The steps that an operation asks its caller to carry out.

use vstd::prelude::*;

verus! {

/// One change to the filesystem.
#[derive(Clone, Debug, PartialEq, Eq)]
pub enum Action {
    /// Create the directory and the directories above it.
    CreateDirAll { path: String },
    /// Create a directory link at `link` that resolves to `original`.
    LinkDir { original: String, link: String },
    /// Remove the link at `link` if, when the step is carried out, it still
    /// points at `original`.
    UnlinkDirIfTargeting { original: String, link: String },
    /// Remove the link object at `path`, not what it points at.
    RemoveLink { path: String },
    /// Write `content` to the file, in place of what it held.
    WriteFile { path: String, content: String },
    /// Copy the file `from` over the file `to`.
    CopyFile { from: String, to: String },
}

/// The mathematical content of an `Action`.
pub enum ActionModel {
    CreateDirAll { path: Seq<char> },
    LinkDir { original: Seq<char>, link: Seq<char> },
    UnlinkDirIfTargeting { original: Seq<char>, link: Seq<char> },
    RemoveLink { path: Seq<char> },
    WriteFile { path: Seq<char>, content: Seq<char> },
    CopyFile { from: Seq<char>, to: Seq<char> },
}

impl View for Action {
    type V = ActionModel;

    open spec fn view(&self) -> ActionModel {
        match *self {
            Action::CreateDirAll { path } => ActionModel::CreateDirAll { path: path@ },
            Action::LinkDir { original, link } => ActionModel::LinkDir {
                original: original@,
                link: link@,
            },
            Action::UnlinkDirIfTargeting { original, link } => ActionModel::UnlinkDirIfTargeting {
                original: original@,
                link: link@,
            },
            Action::RemoveLink { path } => ActionModel::RemoveLink { path: path@ },
            Action::WriteFile { path, content } => ActionModel::WriteFile {
                path: path@,
                content: content@,
            },
            Action::CopyFile { from, to } => ActionModel::CopyFile { from: from@, to: to@ },
        }
    }
}

/// What the caller does when a step fails.
#[derive(Clone, Copy, Debug, PartialEq, Eq, Structural)]
pub enum Policy {
    /// Note the failure and go on with the next step.
    BestEffort,
    /// Stop, and report the failure; the steps after it are not carried out.
    MustSucceed,
}

/// An action with the policy that governs its failure.
#[derive(Clone, Debug, PartialEq, Eq)]
pub struct Step {
    pub action: Action,
    pub policy: Policy,
}

/// The mathematical content of a `Step`.
pub struct StepModel {
    pub action: ActionModel,
    pub policy: Policy,
}

impl View for Step {
    type V = StepModel;

    open spec fn view(&self) -> StepModel {
        StepModel { action: self.action@, policy: self.policy }
    }
}

/// The contents of a list of steps.
pub open spec fn steps_of(steps: Seq<Step>) -> Seq<StepModel> {
    Seq::new(steps.len(), |i: int| steps[i]@)
}

/// A step whose failure is noted and passed over.
pub open spec fn best_effort(action: ActionModel) -> StepModel {
    StepModel { action, policy: Policy::BestEffort }
}

/// A step whose failure ends the operation.
pub open spec fn fail_fast(action: ActionModel) -> StepModel {
    StepModel { action, policy: Policy::MustSucceed }
}

/// Wraps `action` as a step whose failure is noted and passed over.
pub fn try_best_effort(action: Action) -> (step: Step)
    ensures
        step@ == best_effort(action@),
{
    Step { action, policy: Policy::BestEffort }
}

/// Wraps `action` as a step whose failure ends the operation.
pub fn must_succeed(action: Action) -> (step: Step)
    ensures
        step@ == fail_fast(action@),
{
    Step { action, policy: Policy::MustSucceed }
}

} // verus!
