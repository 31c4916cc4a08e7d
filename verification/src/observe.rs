//! What the library is told of the filesystem.
//!
//! The library reads nothing itself. Its caller looks at the paths an
//! operation asks for and records what it saw in a `Snapshot`; the operation
//! then decides on the snapshot alone. A path that nobody looked at counts
//! as absent.

use vstd::prelude::*;
use crate::text::{chars_of, opt_text, same_chars, texts};

verus! {

/// What was seen at one path.
#[derive(Clone, Debug, PartialEq, Eq)]
pub struct Observed {
    /// Something is there, links followed.
    pub present: bool,
    /// A directory is there, links followed.
    pub is_dir: bool,
    /// Where the entry points, if it is a link that could be read.
    pub link_target: Option<String>,
    /// The later of creation and modification time, in nanoseconds since the
    /// epoch, if the entry's metadata could be read; a time that could not be
    /// had counts as the epoch.
    pub stamp: Option<u128>,
    /// The entry's text, if it was asked for and could be read.
    pub content: Option<String>,
    /// The paths of the directory's entries, in the order in which the
    /// platform lists them, if that was asked for and the directory could be
    /// listed.
    pub entries: Option<Vec<String>>,
}

/// The mathematical content of an `Observed`.
pub struct Facts {
    pub present: bool,
    pub is_dir: bool,
    pub link_target: Option<Seq<char>>,
    pub stamp: Option<u128>,
    pub content: Option<Seq<char>>,
    pub entries: Option<Seq<Seq<char>>>,
}

impl Facts {
    /// What holds of a path that nobody looked at.
    pub open spec fn absent() -> Facts {
        Facts {
            present: false,
            is_dir: false,
            link_target: None,
            stamp: None,
            content: None,
            entries: None,
        }
    }
}

impl View for Observed {
    type V = Facts;

    open spec fn view(&self) -> Facts {
        Facts {
            present: self.present,
            is_dir: self.is_dir,
            link_target: opt_text(self.link_target),
            stamp: self.stamp,
            content: opt_text(self.content),
            entries: match self.entries {
                Some(list) => Some(texts(list@)),
                None => None,
            },
        }
    }
}

impl Observed {
    /// Nothing there.
    pub fn absent() -> (seen: Observed)
        ensures
            seen@ == Facts::absent(),
    {
        Observed {
            present: false,
            is_dir: false,
            link_target: None,
            stamp: None,
            content: None,
            entries: None,
        }
    }
}

/// One path with what was seen there.
#[derive(Debug)]
pub struct Sighting {
    pub path: String,
    pub seen: Observed,
}

/// The filesystem as a map from paths to facts; paths outside its domain
/// were not looked at.
pub type World = Map<Seq<char>, Facts>;

/// What `world` holds of `path`.
pub open spec fn facts_at(world: World, path: Seq<char>) -> Facts {
    if world.dom().contains(path) {
        world[path]
    } else {
        Facts::absent()
    }
}

/// The world that a list of sightings describes; of two sightings of one
/// path the later counts.
pub open spec fn world_of(sightings: Seq<Sighting>) -> World
    decreases sightings.len(),
{
    if sightings.len() == 0 {
        Map::empty()
    } else {
        world_of(sightings.drop_last()).insert(sightings.last().path@, sightings.last().seen@)
    }
}

/// A record of what was seen at the paths that were looked at.
#[derive(Debug)]
pub struct Snapshot {
    sightings: Vec<Sighting>,
}

impl View for Snapshot {
    type V = World;

    closed spec fn view(&self) -> World {
        world_of(self.sightings@)
    }
}

impl Snapshot {
    /// A snapshot in which nothing was looked at.
    pub fn new() -> (snapshot: Snapshot)
        ensures
            snapshot@ == Map::<Seq<char>, Facts>::empty(),
    {
        Snapshot { sightings: Vec::new() }
    }

    /// Records what was seen at `path`, in place of anything recorded of it
    /// before.
    pub fn record(&mut self, path: String, seen: Observed)
        ensures
            final(self)@ == old(self)@.insert(path@, seen@),
    {
        let ghost before = self.sightings@;
        self.sightings.push(Sighting { path, seen });
        assert(self.sightings@.drop_last() =~= before);
    }

    /// What was seen at `path`, if it was looked at.
    pub fn look(&self, path: &str) -> (seen: Option<&Observed>)
        ensures
            seen is Some == self@.dom().contains(path@),
            seen matches Some(o) ==> o@ == self@[path@],
            facts_of(seen) == facts_at(self@, path@),
    {
        let wanted = chars_of(path);
        let mut i: usize = self.sightings.len();
        assert(self.sightings@.take(i as int) =~= self.sightings@);
        while i > 0
            invariant
                i <= self.sightings.len(),
                wanted@ == path@,
                world_of(self.sightings@).dom().contains(path@) == world_of(
                    self.sightings@.take(i as int),
                ).dom().contains(path@),
                world_of(self.sightings@).dom().contains(path@) ==> world_of(
                    self.sightings@,
                )[path@] == world_of(self.sightings@.take(i as int))[path@],
            decreases i,
        {
            let ghost upto = self.sightings@.take(i as int);
            assert(upto.drop_last() =~= self.sightings@.take(i - 1));
            assert(upto.last() == self.sightings@[i - 1]);
            i -= 1;
            let here = chars_of(self.sightings[i].path.as_str());
            if same_chars(&here, &wanted) {
                return Some(&self.sightings[i].seen);
            }
        }
        None
    }

    /// Whether `path` was looked at.
    pub fn has(&self, path: &str) -> (seen: bool)
        ensures
            seen == self@.dom().contains(path@),
    {
        self.look(path).is_some()
    }

    /// Whether something was seen at `path`, links followed.
    pub fn is_present(&self, path: &str) -> (yes: bool)
        ensures
            yes == facts_at(self@, path@).present,
    {
        match self.look(path) {
            Some(seen) => seen.present,
            None => false,
        }
    }

    /// Whether a directory was seen at `path`, links followed.
    pub fn is_dir(&self, path: &str) -> (yes: bool)
        ensures
            yes == facts_at(self@, path@).is_dir,
    {
        match self.look(path) {
            Some(seen) => seen.is_dir,
            None => false,
        }
    }

    /// The time stamp seen at `path`, if its metadata could be read.
    pub fn stamp(&self, path: &str) -> (stamp: Option<u128>)
        ensures
            stamp == facts_at(self@, path@).stamp,
    {
        match self.look(path) {
            Some(seen) => seen.stamp,
            None => None,
        }
    }

    /// The text seen at `path`, if it was read.
    pub fn content(&self, path: &str) -> (text: Option<&String>)
        ensures
            opt_ref_text(text) == facts_at(self@, path@).content,
    {
        match self.look(path) {
            Some(seen) => match &seen.content {
                Some(text) => Some(text),
                None => None,
            },
            None => None,
        }
    }

    /// The entries seen in the directory `path`, if it was listed.
    pub fn entries(&self, path: &str) -> (list: Option<&Vec<String>>)
        ensures
            opt_ref_texts(list) == facts_at(self@, path@).entries,
    {
        match self.look(path) {
            Some(seen) => match &seen.entries {
                Some(list) => Some(list),
                None => None,
            },
            None => None,
        }
    }
}

/// The text of an optional borrowed string.
pub open spec fn opt_ref_text(text: Option<&String>) -> Option<Seq<char>> {
    match text {
        Some(t) => Some(t@),
        None => None,
    }
}

/// The texts of an optional borrowed list of strings.
pub open spec fn opt_ref_texts(list: Option<&Vec<String>>) -> Option<Seq<Seq<char>>> {
    match list {
        Some(l) => Some(texts(l@)),
        None => None,
    }
}

/// The facts that a lookup gives: those seen, or absence.
pub open spec fn facts_of(seen: Option<&Observed>) -> Facts {
    match seen {
        Some(o) => o@,
        None => Facts::absent(),
    }
}

} // verus!
