//! Turning a folder target on or off for every instance at once.
//!
//! Both operations are fail-fast: the steps that matter must succeed, and
//! the first that does not ends the operation. File targets need neither:
//! files are merged or copied when an instance is brought in line.

use vstd::prelude::*;
use crate::latest::place_in;
use crate::linking::{is_targeting, link_dir, targeting};
use crate::observe::{facts_at, Snapshot, World};
use crate::plan::{
    fail_fast, must_succeed, steps_of, try_best_effort, Action, ActionModel,
    Step, StepModel,
};
use crate::reconcile::{make_parent, parent};
use crate::safe_path::{is_safe, normalized, resolve, SafePath};
use crate::state::{eligible, eligible_roots, Instance, LauncherDirectories};
use crate::text::texts;

verus! {

/// The places of `rel` under `roots` that are not yet links to `shared`, in
/// the order of the roots.
pub open spec fn pending(world: World, roots: Seq<Seq<char>>, rel: Seq<char>, shared: Seq<char>) -> Seq<
    Seq<char>,
>
    decreases roots.len(),
{
    if roots.len() == 0 {
        Seq::empty()
    } else if targeting(world, shared, resolve(roots.last(), rel)) {
        pending(world, roots.drop_last(), rel, shared)
    } else {
        pending(world, roots.drop_last(), rel, shared).push(resolve(roots.last(), rel))
    }
}

/// Whether something is there at one of `paths`.
pub open spec fn any_present(world: World, paths: Seq<Seq<char>>) -> bool {
    exists|i: int| 0 <= i < paths.len() && facts_at(world, #[trigger] paths[i]).present
}

/// For each of `paths`, in order: the directory that holds it is created,
/// best effort, and a link to `shared` is put in its place, which must
/// succeed.
pub open spec fn link_steps(shared: Seq<char>, paths: Seq<Seq<char>>) -> Seq<StepModel>
    decreases paths.len(),
{
    if paths.len() == 0 {
        Seq::empty()
    } else {
        (link_steps(shared, paths.drop_last()) + make_parent(paths.last())).push(
            fail_fast(ActionModel::LinkDir { original: shared, link: paths.last() }),
        )
    }
}

/// What enabling the target does. For a file target there is nothing to do.
/// A folder name that is no safe path is refused. So is a folder of which
/// some instance that is not yet linked has something in its place: nothing
/// is linked then, on any instance. Otherwise the folder's directory in the
/// store is created and every instance that is not yet linked is linked to
/// it.
pub open spec fn enable_plan(
    world: World,
    name: Seq<char>,
    is_file: bool,
    roots: Seq<Seq<char>>,
    synced_dir: Seq<char>,
) -> Option<Seq<StepModel>> {
    if is_file {
        Some(Seq::empty())
    } else if !is_safe(name) {
        None
    } else {
        let rel = normalized(name);
        let shared = resolve(synced_dir, rel);
        let paths = pending(world, roots, rel, shared);
        if any_present(world, paths) {
            None
        } else {
            Some(
                seq![fail_fast(ActionModel::CreateDirAll { path: shared })] + link_steps(
                    shared,
                    paths,
                ),
            )
        }
    }
}

/// The contents of an optional list of steps.
pub open spec fn opt_steps(steps: Option<Vec<Step>>) -> Option<Seq<StepModel>> {
    match steps {
        Some(list) => Some(steps_of(list@)),
        None => None,
    }
}

/// The steps that enable the target `name` on every instance that takes
/// part in sharing, or `None` where enabling is refused. Once the steps have
/// been carried out the target is enabled.
pub fn enable_all(
    name: &str,
    is_file: bool,
    instances: &Vec<Instance>,
    directories: &LauncherDirectories,
    snapshot: &Snapshot,
) -> (steps: Option<Vec<Step>>)
    ensures
        opt_steps(steps) == enable_plan(
            snapshot@,
            name@,
            is_file,
            eligible(instances@),
            directories.synced_dir@,
        ),
{
    let mut steps: Vec<Step> = Vec::new();
    assert(steps_of(steps@) =~= Seq::<StepModel>::empty());
    if is_file {
        return Some(steps);
    }
    let Some(safe_path) = SafePath::new(name) else {
        return None;
    };
    let roots = eligible_roots(instances);
    let target_dir = safe_path.to_path(directories.synced_dir.as_str());
    let ghost world = snapshot@;
    let ghost rs = texts(roots@);
    let ghost rel = safe_path@;
    let ghost shared = target_dir@;

    let mut paths: Vec<String> = Vec::new();
    let mut i: usize = 0;
    assert(rs.take(0) =~= Seq::<Seq<char>>::empty());
    assert(texts(paths@) =~= pending(world, rs.take(0), rel, shared));
    while i < roots.len()
        invariant
            i <= roots.len(),
            rs == texts(roots@),
            world == snapshot@,
            rel == safe_path@,
            shared == target_dir@,
            texts(paths@) == pending(world, rs.take(i as int), rel, shared),
        decreases roots.len() - i,
    {
        let path = safe_path.to_path(roots[i].as_str());
        let ghost before = texts(paths@);
        proof {
            let upto = rs.take(i + 1);
            assert(upto.drop_last() =~= rs.take(i as int));
            assert(upto.last() == roots@[i as int]@);
        }
        if !is_targeting(target_dir.as_str(), path.as_str(), snapshot) {
            paths.push(path);
            assert(texts(paths@) =~= before.push(path@));
        }
        i += 1;
    }
    assert(rs.take(roots.len() as int) =~= rs);
    let ghost ps = texts(paths@);

    let mut j: usize = 0;
    while j < paths.len()
        invariant
            j <= paths.len(),
            ps == texts(paths@),
            world == snapshot@,
            !is_file,
            enable_plan(world, name@, is_file, eligible(instances@), directories.synced_dir@) == (
            if any_present(world, ps) {
                None
            } else {
                Some(
                    seq![fail_fast(ActionModel::CreateDirAll { path: shared })] + link_steps(
                        shared,
                        ps,
                    ),
                )
            }),
            forall|k: int| 0 <= k < j ==> !facts_at(world, #[trigger] ps[k]).present,
        decreases paths.len() - j,
    {
        if snapshot.is_present(paths[j].as_str()) {
            assert(facts_at(world, ps[j as int]).present);
            return None;
        }
        j += 1;
    }
    assert(!any_present(world, ps));

    steps.push(must_succeed(Action::CreateDirAll { path: target_dir.clone() }));
    let ghost head = steps_of(steps@);
    assert(head =~= seq![fail_fast(ActionModel::CreateDirAll { path: shared })]);
    let mut k: usize = 0;
    assert(ps.take(0) =~= Seq::<Seq<char>>::empty());
    assert(steps_of(steps@) =~= head + link_steps(shared, ps.take(0)));
    while k < paths.len()
        invariant
            k <= paths.len(),
            ps == texts(paths@),
            shared == target_dir@,
            steps_of(steps@) == head + link_steps(shared, ps.take(k as int)),
        decreases paths.len() - k,
    {
        let path = paths[k].as_str();
        let ghost so_far = steps_of(steps@);
        let made = parent(path);
        let ghost with_parent;
        match made {
            Some(dir) => {
                steps.push(try_best_effort(Action::CreateDirAll { path: dir }));
            },
            None => {},
        }
        proof {
            with_parent = steps_of(steps@);
            assert(with_parent =~= so_far + make_parent(path@));
        }
        steps.push(must_succeed(link_dir(target_dir.as_str(), path)));
        proof {
            let upto = ps.take(k + 1);
            assert(upto.drop_last() =~= ps.take(k as int));
            assert(upto.last() == path@);
            assert(steps_of(steps@) =~= with_parent.push(
                fail_fast(ActionModel::LinkDir { original: shared, link: path@ }),
            ));
            assert(steps_of(steps@) =~= head + link_steps(shared, upto));
        }
        k += 1;
    }
    assert(ps.take(paths.len() as int) =~= ps);
    Some(steps)
}

/// Why a target could not be disabled.
#[derive(Clone, Copy, Debug, PartialEq, Eq, Structural)]
pub enum DisableError {
    /// The instances directory could not be listed.
    InstancesUnreadable,
}

/// For each instance directory in `entries`, in order: the link at the
/// place of `rel` is removed if it still points at `shared`, which must
/// succeed.
pub open spec fn unlink_steps(shared: Seq<char>, rel: Seq<char>, entries: Seq<Seq<char>>) -> Seq<
    StepModel,
> {
    Seq::new(
        entries.len(),
        |i: int|
            fail_fast(
                ActionModel::UnlinkDirIfTargeting {
                    original: shared,
                    link: place_in(entries[i], rel),
                },
            ),
    )
}

/// What disabling the target does. For a file target, and for a folder name
/// that is no safe path, there is nothing to do. Otherwise every instance
/// directory that is listed, whether or not the instance takes part in
/// sharing, has its link removed if the link points at the folder's
/// directory in the store. Where the instances cannot be listed the
/// operation fails.
pub open spec fn disable_plan(
    world: World,
    name: Seq<char>,
    is_file: bool,
    instances_dir: Seq<char>,
    synced_dir: Seq<char>,
) -> Result<Seq<StepModel>, DisableError> {
    if is_file || !is_safe(name) {
        Ok(Seq::empty())
    } else {
        match facts_at(world, instances_dir).entries {
            Some(entries) => Ok(
                unlink_steps(resolve(synced_dir, normalized(name)), normalized(name), entries),
            ),
            None => Err(DisableError::InstancesUnreadable),
        }
    }
}

/// The contents of a list of steps, or the error.
pub open spec fn result_steps(steps: Result<Vec<Step>, DisableError>) -> Result<
    Seq<StepModel>,
    DisableError,
> {
    match steps {
        Ok(list) => Ok(steps_of(list@)),
        Err(e) => Err(e),
    }
}

/// The steps that disable the target `name` on every instance.
pub fn disable_all(
    name: &str,
    is_file: bool,
    directories: &LauncherDirectories,
    snapshot: &Snapshot,
) -> (steps: Result<Vec<Step>, DisableError>)
    ensures
        result_steps(steps) == disable_plan(
            snapshot@,
            name@,
            is_file,
            directories.instances_dir@,
            directories.synced_dir@,
        ),
{
    let mut steps: Vec<Step> = Vec::new();
    assert(steps_of(steps@) =~= Seq::<StepModel>::empty());
    if is_file {
        return Ok(steps);
    }
    let Some(safe_path) = SafePath::new(name) else {
        return Ok(steps);
    };
    let Some(entries) = snapshot.entries(directories.instances_dir.as_str()) else {
        return Err(DisableError::InstancesUnreadable);
    };
    let target_dir = safe_path.to_path(directories.synced_dir.as_str());
    let ghost es = texts(entries@);
    let mut i: usize = 0;
    while i < entries.len()
        invariant
            i <= entries.len(),
            es == texts(entries@),
            steps@.len() == i,
            forall|k: int|
                0 <= k < i ==> (#[trigger] steps@[k])@ == fail_fast(
                    ActionModel::UnlinkDirIfTargeting {
                        original: target_dir@,
                        link: place_in(es[k], safe_path@),
                    },
                ),
        decreases entries.len() - i,
    {
        let root = crate::latest::instance_root(entries[i].as_str());
        let link = safe_path.to_path(root.as_str());
        steps.push(
            must_succeed(
                Action::UnlinkDirIfTargeting { original: target_dir.clone(), link },
            ),
        );
        i += 1;
    }
    assert(steps_of(steps@) =~= unlink_steps(target_dir@, safe_path@, es));
    Ok(steps)
}

} // verus!
