//! Finding the most recently touched copy of a file across the instances.

use vstd::prelude::*;
use crate::observe::{facts_at, Snapshot, World};
use crate::safe_path::{join, resolve, SafePath};
use crate::state::LauncherDirectories;
use crate::text::texts;

verus! {

/// The name of the directory, inside an instance's directory, that is the
/// instance's root.
pub open spec fn root_name() -> Seq<char> {
    ".minecraft"@
}

/// The place of `rel` in the instance whose directory is `entry`.
pub open spec fn place_in(entry: Seq<char>, rel: Seq<char>) -> Seq<char> {
    resolve(resolve(entry, root_name()), rel)
}

/// The newest copy of `rel` among the instances in `entries`, with its time
/// stamp: of the copies whose metadata could be read, the first in scan
/// order that none is strictly later than.
pub open spec fn newest_among(world: World, entries: Seq<Seq<char>>, rel: Seq<char>) -> Option<
    (u128, Seq<char>),
>
    decreases entries.len(),
{
    if entries.len() == 0 {
        None
    } else {
        let before = newest_among(world, entries.drop_last(), rel);
        let path = place_in(entries.last(), rel);
        match facts_at(world, path).stamp {
            None => before,
            Some(stamp) => match before {
                None => Some((stamp, path)),
                Some(best) => if stamp > best.0 {
                    Some((stamp, path))
                } else {
                    before
                },
            },
        }
    }
}

/// The path of the newest copy of `rel` across the instances listed in
/// `instances_dir`; none where the directory could not be listed or no
/// instance has the file.
pub open spec fn newest(world: World, instances_dir: Seq<char>, rel: Seq<char>) -> Option<Seq<char>> {
    match facts_at(world, instances_dir).entries {
        None => None,
        Some(entries) => match newest_among(world, entries, rel) {
            None => None,
            Some(best) => Some(best.1),
        },
    }
}

/// The newest copy is a copy whose metadata could be read, no such copy is
/// strictly later, and no such copy of the same age was scanned before it.
/// There is none exactly when no copy's metadata could be read.
pub proof fn lemma_newest_among(world: World, entries: Seq<Seq<char>>, rel: Seq<char>)
    ensures
        newest_among(world, entries, rel) is None <==> forall|i: int|
            0 <= i < entries.len() ==> facts_at(world, #[trigger] place_in(entries[i], rel)).stamp
                is None,
        newest_among(world, entries, rel) matches Some(best) ==> exists|at: int|
            {
                &&& 0 <= at < entries.len()
                &&& best.1 == #[trigger] place_in(entries[at], rel)
                &&& facts_at(world, best.1).stamp == Some(best.0)
                &&& forall|i: int|
                    0 <= i < entries.len() ==> (facts_at(
                        world,
                        #[trigger] place_in(entries[i], rel),
                    ).stamp matches Some(s) ==> s <= best.0)
                &&& forall|i: int|
                    0 <= i < at ==> (facts_at(
                        world,
                        #[trigger] place_in(entries[i], rel),
                    ).stamp matches Some(s) ==> s < best.0)
            },
    decreases entries.len(),
{
    if entries.len() > 0 {
        let shorter = entries.drop_last();
        lemma_newest_among(world, shorter, rel);
        let before = newest_among(world, shorter, rel);
        let path = place_in(entries.last(), rel);
        let last = entries.len() - 1;
        assert forall|i: int| 0 <= i < shorter.len() implies place_in(shorter[i], rel)
            == #[trigger] place_in(entries[i], rel) by {}
        match facts_at(world, path).stamp {
            None => {
                if let Some(best) = before {
                    let at = choose|at: int|
                        {
                            &&& 0 <= at < shorter.len()
                            &&& best.1 == #[trigger] place_in(shorter[at], rel)
                            &&& facts_at(world, best.1).stamp == Some(best.0)
                            &&& forall|i: int|
                                0 <= i < shorter.len() ==> (facts_at(
                                    world,
                                    #[trigger] place_in(shorter[i], rel),
                                ).stamp matches Some(s) ==> s <= best.0)
                            &&& forall|i: int|
                                0 <= i < at ==> (facts_at(
                                    world,
                                    #[trigger] place_in(shorter[i], rel),
                                ).stamp matches Some(s) ==> s < best.0)
                        };
                    assert(best.1 == place_in(entries[at], rel));
                    assert forall|i: int| 0 <= i < entries.len() implies (facts_at(
                        world,
                        #[trigger] place_in(entries[i], rel),
                    ).stamp matches Some(s) ==> s <= best.0) by {
                        if i < last {
                            assert(place_in(shorter[i], rel) == place_in(entries[i], rel));
                        }
                    }
                    assert forall|i: int| 0 <= i < at implies (facts_at(
                        world,
                        #[trigger] place_in(entries[i], rel),
                    ).stamp matches Some(s) ==> s < best.0) by {
                        assert(place_in(shorter[i], rel) == place_in(entries[i], rel));
                    }
                } else {
                    assert forall|i: int| 0 <= i < entries.len() implies facts_at(
                        world,
                        #[trigger] place_in(entries[i], rel),
                    ).stamp is None by {
                        if i < last {
                            assert(place_in(shorter[i], rel) == place_in(entries[i], rel));
                        }
                    }
                }
            },
            Some(stamp) => {
                assert(facts_at(world, place_in(entries[last], rel)).stamp is Some);
                match before {
                    None => {
                        assert(path == place_in(entries[last], rel));
                        assert forall|i: int| 0 <= i < entries.len() implies (facts_at(
                            world,
                            #[trigger] place_in(entries[i], rel),
                        ).stamp matches Some(s) ==> s <= stamp) by {
                            if i < last {
                                assert(place_in(shorter[i], rel) == place_in(entries[i], rel));
                            }
                        }
                        assert forall|i: int| 0 <= i < last implies (facts_at(
                            world,
                            #[trigger] place_in(entries[i], rel),
                        ).stamp matches Some(s) ==> s < stamp) by {
                            assert(place_in(shorter[i], rel) == place_in(entries[i], rel));
                        }
                    },
                    Some(best) => {
                        let at = choose|at: int|
                            {
                                &&& 0 <= at < shorter.len()
                                &&& best.1 == #[trigger] place_in(shorter[at], rel)
                                &&& facts_at(world, best.1).stamp == Some(best.0)
                                &&& forall|i: int|
                                    0 <= i < shorter.len() ==> (facts_at(
                                        world,
                                        #[trigger] place_in(shorter[i], rel),
                                    ).stamp matches Some(s) ==> s <= best.0)
                                &&& forall|i: int|
                                    0 <= i < at ==> (facts_at(
                                        world,
                                        #[trigger] place_in(shorter[i], rel),
                                    ).stamp matches Some(s) ==> s < best.0)
                            };
                        if stamp > best.0 {
                            assert(path == place_in(entries[last], rel));
                            assert forall|i: int| 0 <= i < entries.len() implies (facts_at(
                                world,
                                #[trigger] place_in(entries[i], rel),
                            ).stamp matches Some(s) ==> s <= stamp) by {
                                if i < last {
                                    assert(place_in(shorter[i], rel) == place_in(entries[i], rel));
                                }
                            }
                            assert forall|i: int| 0 <= i < last implies (facts_at(
                                world,
                                #[trigger] place_in(entries[i], rel),
                            ).stamp matches Some(s) ==> s < stamp) by {
                                assert(place_in(shorter[i], rel) == place_in(entries[i], rel));
                            }
                        } else {
                            assert(best.1 == place_in(entries[at], rel));
                            assert forall|i: int| 0 <= i < entries.len() implies (facts_at(
                                world,
                                #[trigger] place_in(entries[i], rel),
                            ).stamp matches Some(s) ==> s <= best.0) by {
                                if i < last {
                                    assert(place_in(shorter[i], rel) == place_in(entries[i], rel));
                                }
                            }
                            assert forall|i: int| 0 <= i < at implies (facts_at(
                                world,
                                #[trigger] place_in(entries[i], rel),
                            ).stamp matches Some(s) ==> s < best.0) by {
                                assert(place_in(shorter[i], rel) == place_in(entries[i], rel));
                            }
                        }
                    },
                }
            },
        }
    }
}

/// The root directory of the instance whose directory is `entry`.
pub fn instance_root(entry: &str) -> (root: String)
    ensures
        root@ == resolve(entry@, root_name()),
{
    join(entry, ".minecraft")
}

/// The path of the most recently touched copy of `filename` across the
/// instances listed in the instances directory.
pub fn find_latest(
    filename: &SafePath,
    directories: &LauncherDirectories,
    snapshot: &Snapshot,
) -> (latest: Option<String>)
    ensures
        crate::text::opt_text(latest) == newest(snapshot@, directories.instances_dir@, filename@),
{
    let Some(entries) = snapshot.entries(directories.instances_dir.as_str()) else {
        return None;
    };
    let mut latest_time: u128 = 0;
    let mut latest_path: Option<String> = None;
    let ghost es = texts(entries@);
    let mut i: usize = 0;
    assert(es.take(0) =~= Seq::<Seq<char>>::empty());
    while i < entries.len()
        invariant
            i <= entries.len(),
            es == texts(entries@),
            match newest_among(snapshot@, es.take(i as int), filename@) {
                None => latest_path is None,
                Some(best) => latest_path matches Some(p) && p@ == best.1 && latest_time == best.0,
            },
        decreases entries.len() - i,
    {
        let root = instance_root(entries[i].as_str());
        let path = filename.to_path(root.as_str());
        proof {
            let upto = es.take(i + 1);
            assert(upto.drop_last() =~= es.take(i as int));
            assert(upto.last() == entries@[i as int]@);
        }
        if let Some(time) = snapshot.stamp(path.as_str()) {
            if latest_path.is_none() || time > latest_time {
                latest_time = time;
                latest_path = Some(path);
            }
        }
        i += 1;
    }
    assert(es.take(entries.len() as int) =~= es);
    latest_path
}

} // verus!
