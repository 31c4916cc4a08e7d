//! Directory links: creating one, telling whether one points at a given
//! directory, and removing one only if it does.
//!
//! A link means one thing here: that it resolves to exactly the expected
//! directory of the shared store. The text that the platform gives for the
//! link's target is compared as it is.

use vstd::prelude::*;
use crate::observe::{facts_at, Facts, Observed, Snapshot, World};
use crate::plan::{Action, ActionModel};
use crate::text::same_text;

verus! {

/// Whether what was seen is a link that points at `original`.
pub open spec fn points_at(facts: Facts, original: Seq<char>) -> bool {
    facts.link_target == Some(original)
}

/// Whether `link` is, in `world`, a link that points at `original`.
pub open spec fn targeting(world: World, original: Seq<char>, link: Seq<char>) -> bool {
    points_at(facts_at(world, link), original)
}

impl Observed {
    /// Whether what was seen is a link that points at `original`. An entry
    /// that is missing, is no link or could not be read points nowhere.
    pub fn points_at(&self, original: &str) -> (yes: bool)
        ensures
            yes == points_at(self@, original@),
    {
        match &self.link_target {
            Some(target) => same_text(target.as_str(), original),
            None => false,
        }
    }
}

/// The action that creates a directory link at `link` which resolves to
/// `original`.
pub fn link_dir(original: &str, link: &str) -> (action: Action)
    ensures
        action@ == (ActionModel::LinkDir { original: original@, link: link@ }),
{
    Action::LinkDir { original: original.to_owned(), link: link.to_owned() }
}

/// Whether `link` was seen to be a link that points at `original`.
pub fn is_targeting(original: &str, link: &str, snapshot: &Snapshot) -> (yes: bool)
    ensures
        yes == targeting(snapshot@, original@, link@),
{
    match snapshot.look(link) {
        Some(seen) => seen.points_at(original),
        None => false,
    }
}

/// The removal of `link`, if it was seen to point at `original`; nothing
/// otherwise. What is removed is the link object, never a directory.
pub fn unlink_dir_if_targeting(original: &str, link: &str, snapshot: &Snapshot) -> (action: Option<
    Action,
>)
    ensures
        action is Some == targeting(snapshot@, original@, link@),
        action matches Some(a) ==> a@ == (ActionModel::RemoveLink { path: link@ }),
{
    if is_targeting(original, link, snapshot) {
        Some(Action::RemoveLink { path: link.to_owned() })
    } else {
        None
    }
}

} // verus!
