//! Bringing one instance's directory in line with the configured targets.
//!
//! The plan has three parts, in this order: links that point into the shared
//! store and belong to no configured folder are removed; each file target is
//! merged or copied in; each folder target whose place is still free is
//! linked to its directory in the store. Every step is best effort: one
//! that fails is passed over.

use relative_path::PathExt;
use vstd::prelude::*;
use crate::config::SyncTargets;
use crate::latest::{find_latest, instance_root, newest, place_in};
use crate::linking::link_dir;
use crate::observe::{facts_at, Snapshot, World};
use crate::options::{
    combined, copies_of, create_options_txt, merge_options, rendered, CopyModel, OptionsCopy,
};
use crate::plan::{best_effort, steps_of, try_best_effort, Action, ActionModel, Step, StepModel};
use crate::safe_path::{is_safe, join, leads_into, normalized, path_leads_into, resolve, SafePath};
use crate::state::LauncherDirectories;
use crate::text::{chars_of, same_text, slice_string, texts};

verus! {

/// The name of the options file, which is merged rather than copied.
pub open spec fn options_name() -> Seq<char> {
    "options.txt"@
}

/// The name, in the shared store, of the baseline that the options merge
/// starts from.
pub open spec fn fallback_name() -> Seq<char> {
    "fallback_options.txt"@
}

/// The position of the last `c` in `s`, or -1 where it has none.
pub open spec fn last_index_of(s: Seq<char>, c: char) -> int
    decreases s.len(),
{
    if s.len() == 0 {
        -1
    } else if s.last() == c {
        s.len() - 1
    } else {
        last_index_of(s.drop_last(), c)
    }
}

/// The directory that holds `path`: what stands before its last slash. A
/// path without a slash has none.
pub open spec fn parent_of(path: Seq<char>) -> Option<Seq<char>> {
    let i = last_index_of(path, '/');
    if 0 <= i < path.len() {
        Some(path.take(i))
    } else {
        None
    }
}

/// The directory that holds `path`.
pub fn parent(path: &str) -> (dir: Option<String>)
    ensures
        crate::text::opt_text(dir) == parent_of(path@),
{
    let v = chars_of(path);
    let mut i: usize = v.len();
    assert(v@.take(i as int) =~= v@);
    while i > 0
        invariant
            i <= v.len(),
            v@ == path@,
            last_index_of(v@, '/') == last_index_of(v@.take(i as int), '/'),
        decreases i,
    {
        let ghost upto = v@.take(i as int);
        assert(upto.last() == v@[i - 1]);
        assert(upto.drop_last() =~= v@.take(i - 1));
        if v[i - 1] == '/' {
            assert(last_index_of(upto, '/') == i - 1);
            assert(v@.subrange(0, i - 1) =~= v@.take(i - 1));
            return Some(slice_string(&v, 0, i - 1));
        }
        assert(last_index_of(upto, '/') == last_index_of(upto.drop_last(), '/'));
        i -= 1;
    }
    assert(last_index_of(v@.take(0), '/') == -1);
    None
}

/// The path of `path` relative to `root`, as a slash-separated text, if one
/// can be formed.
///
/// Calls `relative_path::PathExt::relative_to` on the two paths. How the
/// platform splits a path into its parts decides the result, so nothing is
/// claimed of it.
#[verifier::external_body]
fn relative_to(path: &str, root: &str) -> (relative: Option<String>) {
    match std::path::Path::new(path).relative_to(root) {
        Ok(relative) => Some(relative.into_string()),
        Err(_) => None,
    }
}

/// Whether the entry at `entry`, whose path relative to the instance root is
/// `relative`, is a left-over link: its relative path is known and is no
/// configured folder, and it is a link that leads into the shared store.
pub open spec fn left_over(
    world: World,
    folders: Seq<Seq<char>>,
    synced_dir: Seq<char>,
    entry: Seq<char>,
    relative: Option<Seq<char>>,
) -> bool {
    &&& relative matches Some(r) && !folders.contains(r)
    &&& facts_at(world, entry).link_target matches Some(target) && leads_into(target, synced_dir)
}

/// The removal of the entry if it is a left-over link; nothing otherwise.
pub open spec fn cleanup_of(
    world: World,
    folders: Seq<Seq<char>>,
    synced_dir: Seq<char>,
    entry: Seq<char>,
    relative: Option<Seq<char>>,
) -> Seq<StepModel> {
    if left_over(world, folders, synced_dir, entry, relative) {
        seq![best_effort(ActionModel::RemoveLink { path: entry })]
    } else {
        Seq::empty()
    }
}

/// The removals for the entries of the instance root, in the order of the
/// listing. Directories below the root are not descended into.
pub open spec fn cleanup_steps(
    world: World,
    folders: Seq<Seq<char>>,
    synced_dir: Seq<char>,
    entries: Seq<Seq<char>>,
    relatives: Seq<Option<Seq<char>>>,
) -> Seq<StepModel>
    decreases entries.len(),
{
    if entries.len() == 0 || relatives.len() != entries.len() {
        Seq::empty()
    } else {
        cleanup_steps(world, folders, synced_dir, entries.drop_last(), relatives.drop_last())
            + cleanup_of(world, folders, synced_dir, entries.last(), relatives.last())
    }
}

/// The cleanup of an instance root: the removals for its entries, or nothing
/// where the root could not be listed.
pub open spec fn cleanup_pass(
    world: World,
    folders: Seq<Seq<char>>,
    synced_dir: Seq<char>,
    root: Seq<char>,
    relatives: Seq<Option<Seq<char>>>,
) -> Seq<StepModel> {
    match facts_at(world, root).entries {
        Some(entries) => cleanup_steps(world, folders, synced_dir, entries, relatives),
        None => Seq::empty(),
    }
}

/// One instance's copy of the options file, as `world` shows it.
pub open spec fn copy_at(world: World, entry: Seq<char>) -> CopyModel {
    let path = place_in(entry, options_name());
    CopyModel {
        path,
        stamp: match facts_at(world, path).stamp {
            Some(stamp) => stamp,
            None => 0,
        },
        content: facts_at(world, path).content,
    }
}

/// Every instance's copy of the options file, in the order of the listing;
/// none where the instances could not be listed.
pub open spec fn copies_in(world: World, instances_dir: Seq<char>) -> Option<Seq<CopyModel>> {
    match facts_at(world, instances_dir).entries {
        Some(entries) => Some(Seq::new(entries.len(), |i: int| copy_at(world, entries[i]))),
        None => None,
    }
}

/// The text of the merged options file.
pub open spec fn combined_text(
    world: World,
    fallback: Seq<char>,
    current: Seq<char>,
    instances_dir: Seq<char>,
) -> Seq<char> {
    rendered(combined(facts_at(world, fallback).content, current, copies_in(world, instances_dir)))
}

/// The steps for the file target `name`. The options file is merged and
/// written to the store's baseline and to the instance. Any other file is
/// copied in from its newest copy across the instances, unless that is the
/// instance's own. A name that is no safe path gives no step.
pub open spec fn file_steps(
    world: World,
    instances_dir: Seq<char>,
    synced_dir: Seq<char>,
    root: Seq<char>,
    name: Seq<char>,
) -> Seq<StepModel> {
    if name == options_name() {
        let fallback = resolve(synced_dir, fallback_name());
        let target = resolve(root, options_name());
        let text = combined_text(world, fallback, target, instances_dir);
        seq![
            best_effort(ActionModel::WriteFile { path: fallback, content: text }),
            best_effort(ActionModel::WriteFile { path: target, content: text }),
        ]
    } else if is_safe(name) {
        let target = resolve(root, normalized(name));
        match newest(world, instances_dir, normalized(name)) {
            Some(latest) => if latest != target {
                make_parent(target).push(
                    best_effort(ActionModel::CopyFile { from: latest, to: target }),
                )
            } else {
                Seq::empty()
            },
            None => Seq::empty(),
        }
    } else {
        Seq::empty()
    }
}

/// The step that creates the directory which holds `path`, if it has one.
pub open spec fn make_parent(path: Seq<char>) -> Seq<StepModel> {
    match parent_of(path) {
        Some(dir) => seq![best_effort(ActionModel::CreateDirAll { path: dir })],
        None => Seq::empty(),
    }
}

/// The steps for the folder target `name`. Where its place in the instance
/// is free, the folder's directory in the store is created and linked to
/// that place. Where anything is there already it is left as it is. A name
/// that is no safe path gives no step.
pub open spec fn folder_steps(
    world: World,
    synced_dir: Seq<char>,
    root: Seq<char>,
    name: Seq<char>,
) -> Seq<StepModel> {
    if is_safe(name) {
        let shared = resolve(synced_dir, normalized(name));
        let place = resolve(root, normalized(name));
        if !facts_at(world, place).present {
            (seq![best_effort(ActionModel::CreateDirAll { path: shared })] + make_parent(
                place,
            )).push(best_effort(ActionModel::LinkDir { original: shared, link: place }))
        } else {
            Seq::empty()
        }
    } else {
        Seq::empty()
    }
}

/// The steps for all file targets, in the order of their names.
pub open spec fn all_file_steps(
    world: World,
    instances_dir: Seq<char>,
    synced_dir: Seq<char>,
    root: Seq<char>,
    files: Seq<Seq<char>>,
) -> Seq<StepModel>
    decreases files.len(),
{
    if files.len() == 0 {
        Seq::empty()
    } else {
        all_file_steps(world, instances_dir, synced_dir, root, files.drop_last()) + file_steps(
            world,
            instances_dir,
            synced_dir,
            root,
            files.last(),
        )
    }
}

/// The steps for all folder targets, in the order of their names.
pub open spec fn all_folder_steps(
    world: World,
    synced_dir: Seq<char>,
    root: Seq<char>,
    folders: Seq<Seq<char>>,
) -> Seq<StepModel>
    decreases folders.len(),
{
    if folders.len() == 0 {
        Seq::empty()
    } else {
        all_folder_steps(world, synced_dir, root, folders.drop_last()) + folder_steps(
            world,
            synced_dir,
            root,
            folders.last(),
        )
    }
}

/// The whole plan for one instance, given the relative paths that were
/// found for the entries of its root.
pub open spec fn plan_for(
    world: World,
    files: Seq<Seq<char>>,
    folders: Seq<Seq<char>>,
    instances_dir: Seq<char>,
    synced_dir: Seq<char>,
    root: Seq<char>,
    relatives: Seq<Option<Seq<char>>>,
) -> Seq<StepModel> {
    seq![best_effort(ActionModel::CreateDirAll { path: root })] + cleanup_pass(
        world,
        folders,
        synced_dir,
        root,
        relatives,
    ) + all_file_steps(world, instances_dir, synced_dir, root, files) + all_folder_steps(
        world,
        synced_dir,
        root,
        folders,
    )
}

/// Appends a best-effort step.
fn push_best_effort(steps: &mut Vec<Step>, action: Action)
    ensures
        steps_of(final(steps)@) == steps_of(old(steps)@).push(best_effort(action@)),
{
    let ghost before = steps@;
    let step = try_best_effort(action);
    steps.push(step);
    assert(steps_of(steps@) =~= steps_of(before).push(best_effort(action@)));
}

/// Appends the step that creates the directory which holds `path`.
fn push_make_parent(steps: &mut Vec<Step>, path: &str)
    ensures
        steps_of(final(steps)@) == steps_of(old(steps)@) + make_parent(path@),
{
    let ghost before = steps_of(steps@);
    match parent(path) {
        Some(dir) => {
            push_best_effort(steps, Action::CreateDirAll { path: dir });
            assert(steps_of(steps@) =~= before + make_parent(path@));
        },
        None => {
            assert(steps_of(steps@) =~= before + make_parent(path@));
        },
    }
}

/// The removal of one entry of the instance root, if it is a left-over
/// link.
pub fn cleanup_entry(
    sync_targets: &SyncTargets,
    directories: &LauncherDirectories,
    entry: &str,
    relative: Option<&str>,
    snapshot: &Snapshot,
) -> (step: Option<Step>)
    ensures
        step is Some == left_over(
            snapshot@,
            sync_targets.folders@,
            directories.synced_dir@,
            entry@,
            crate::options::opt_str(relative),
        ),
        step matches Some(s) ==> s@ == best_effort(ActionModel::RemoveLink { path: entry@ }),
{
    let Some(name) = relative else {
        return None;
    };
    if sync_targets.folders.contains(name) {
        return None;
    }
    let Some(seen) = snapshot.look(entry) else {
        return None;
    };
    match &seen.link_target {
        Some(target) => {
            if path_leads_into(target.as_str(), directories.synced_dir.as_str()) {
                Some(try_best_effort(Action::RemoveLink { path: entry.to_owned() }))
            } else {
                None
            }
        },
        None => None,
    }
}

/// Appends the cleanup of the instance root.
fn clean_up(
    sync_targets: &SyncTargets,
    directories: &LauncherDirectories,
    dot_minecraft: &str,
    snapshot: &Snapshot,
    steps: &mut Vec<Step>,
) -> (relatives: Ghost<Seq<Option<Seq<char>>>>)
    ensures
        steps_of(final(steps)@) == steps_of(old(steps)@) + cleanup_pass(
            snapshot@,
            sync_targets.folders@,
            directories.synced_dir@,
            dot_minecraft@,
            relatives@,
        ),
{
    let ghost before = steps_of(steps@);
    let ghost world = snapshot@;
    let ghost folders = sync_targets.folders@;
    let ghost synced = directories.synced_dir@;
    let Some(entries) = snapshot.entries(dot_minecraft) else {
        assert(steps_of(steps@) =~= before + Seq::<StepModel>::empty());
        return Ghost(Seq::empty());
    };
    let ghost es = texts(entries@);
    let ghost mut relatives: Seq<Option<Seq<char>>> = Seq::empty();
    let mut i: usize = 0;
    assert(es.take(0) =~= Seq::<Seq<char>>::empty());
    assert(steps_of(steps@) =~= before + cleanup_steps(world, folders, synced, es.take(0), relatives));
    while i < entries.len()
        invariant
            i <= entries.len(),
            es == texts(entries@),
            world == snapshot@,
            folders == sync_targets.folders@,
            synced == directories.synced_dir@,
            relatives.len() == i,
            steps_of(steps@) == before + cleanup_steps(
                world,
                folders,
                synced,
                es.take(i as int),
                relatives,
            ),
        decreases entries.len() - i,
    {
        let entry = entries[i].as_str();
        let relative = relative_to(entry, dot_minecraft);
        let name: Option<&str> = match &relative {
            Some(r) => Some(r.as_str()),
            None => None,
        };
        let ghost found = crate::options::opt_str(name);
        let ghost so_far = steps_of(steps@);
        let ghost earlier = relatives;
        let step = cleanup_entry(sync_targets, directories, entry, name, snapshot);
        proof {
            relatives = relatives.push(found);
            let upto = es.take(i + 1);
            assert(upto.drop_last() =~= es.take(i as int));
            assert(upto.last() == entry@);
            assert(relatives.drop_last() =~= earlier);
        }
        match step {
            Some(s) => {
                steps.push(s);
                assert(steps_of(steps@) =~= so_far + cleanup_of(world, folders, synced, entry@, found));
            },
            None => {
                assert(steps_of(steps@) =~= so_far + cleanup_of(world, folders, synced, entry@, found));
            },
        }
        assert(steps_of(steps@) =~= before + cleanup_steps(
            world,
            folders,
            synced,
            es.take(i + 1),
            relatives,
        ));
        i += 1;
    }
    assert(es.take(entries.len() as int) =~= es);
    Ghost(relatives)
}

/// Every instance's copy of the options file, as the snapshot shows it.
pub fn options_copies(directories: &LauncherDirectories, snapshot: &Snapshot) -> (copies: Option<
    Vec<OptionsCopy>,
>)
    ensures
        match copies {
            Some(list) => copies_in(snapshot@, directories.instances_dir@) == Some(
                copies_of(list@),
            ),
            None => copies_in(snapshot@, directories.instances_dir@) is None,
        },
{
    let Some(entries) = snapshot.entries(directories.instances_dir.as_str()) else {
        return None;
    };
    let mut list: Vec<OptionsCopy> = Vec::new();
    let mut i: usize = 0;
    let ghost es = texts(entries@);
    while i < entries.len()
        invariant
            i <= entries.len(),
            es == texts(entries@),
            list@.len() == i,
            forall|k: int| 0 <= k < i ==> (#[trigger] list@[k])@ == copy_at(snapshot@, es[k]),
        decreases entries.len() - i,
    {
        let root = instance_root(entries[i].as_str());
        let path = join(root.as_str(), "options.txt");
        let stamp = match snapshot.stamp(path.as_str()) {
            Some(stamp) => stamp,
            None => 0,
        };
        let content = match snapshot.content(path.as_str()) {
            Some(text) => Some(text.clone()),
            None => None,
        };
        list.push(OptionsCopy { path, stamp, content });
        i += 1;
    }
    assert(copies_of(list@) =~= Seq::new(es.len(), |i: int| copy_at(snapshot@, es[i])));
    Some(list)
}

/// The text of the merged options file: the mapping of the baseline at
/// `fallback`, with every instance's copy merged into it from the oldest to
/// the youngest. The two resource pack keys are taken from no copy but the
/// one at `current`.
pub fn create_combined_options_txt(
    fallback: &str,
    current: &str,
    directories: &LauncherDirectories,
    snapshot: &Snapshot,
) -> (text: String)
    ensures
        text@ == combined_text(snapshot@, fallback@, current@, directories.instances_dir@),
{
    let baseline: Option<&str> = match snapshot.content(fallback) {
        Some(text) => Some(text.as_str()),
        None => None,
    };
    let copies = options_copies(directories, snapshot);
    let values = match &copies {
        Some(list) => merge_options(baseline, current, Some(list)),
        None => merge_options(baseline, current, None),
    };
    create_options_txt(&values)
}

/// Appends the steps for the file target `name`.
fn sync_file(
    name: &str,
    directories: &LauncherDirectories,
    dot_minecraft: &str,
    snapshot: &Snapshot,
    steps: &mut Vec<Step>,
)
    ensures
        steps_of(final(steps)@) == steps_of(old(steps)@) + file_steps(
            snapshot@,
            directories.instances_dir@,
            directories.synced_dir@,
            dot_minecraft@,
            name@,
        ),
{
    let ghost before = steps_of(steps@);
    let ghost wanted = file_steps(
        snapshot@,
        directories.instances_dir@,
        directories.synced_dir@,
        dot_minecraft@,
        name@,
    );
    if same_text(name, "options.txt") {
        let fallback = join(directories.synced_dir.as_str(), "fallback_options.txt");
        let target = join(dot_minecraft, "options.txt");
        let combined = create_combined_options_txt(
            fallback.as_str(),
            target.as_str(),
            directories,
            snapshot,
        );
        let again = combined.clone();
        push_best_effort(steps, Action::WriteFile { path: fallback, content: combined });
        push_best_effort(steps, Action::WriteFile { path: target, content: again });
        assert(steps_of(steps@) =~= before + wanted);
    } else if let Some(path) = SafePath::new(name) {
        let target = path.to_path(dot_minecraft);
        match find_latest(&path, directories, snapshot) {
            Some(latest) => {
                if !same_text(latest.as_str(), target.as_str()) {
                    push_make_parent(steps, target.as_str());
                    push_best_effort(steps, Action::CopyFile { from: latest, to: target });
                    assert(steps_of(steps@) =~= before + wanted);
                } else {
                    assert(steps_of(steps@) =~= before + wanted);
                }
            },
            None => {
                assert(steps_of(steps@) =~= before + wanted);
            },
        }
    } else {
        assert(steps_of(steps@) =~= before + wanted);
    }
}

/// Appends the steps for the folder target `name`.
fn sync_folder(
    name: &str,
    directories: &LauncherDirectories,
    dot_minecraft: &str,
    snapshot: &Snapshot,
    steps: &mut Vec<Step>,
)
    ensures
        steps_of(final(steps)@) == steps_of(old(steps)@) + folder_steps(
            snapshot@,
            directories.synced_dir@,
            dot_minecraft@,
            name@,
        ),
{
    let ghost before = steps_of(steps@);
    let ghost wanted = folder_steps(snapshot@, directories.synced_dir@, dot_minecraft@, name@);
    let Some(path) = SafePath::new(name) else {
        assert(steps_of(steps@) =~= before + wanted);
        return ;
    };
    let target_dir = path.to_path(directories.synced_dir.as_str());
    let place = path.to_path(dot_minecraft);
    if !snapshot.is_present(place.as_str()) {
        let link = link_dir(target_dir.as_str(), place.as_str());
        push_best_effort(steps, Action::CreateDirAll { path: target_dir });
        push_make_parent(steps, place.as_str());
        push_best_effort(steps, link);
        assert(steps_of(steps@) =~= before + wanted);
    } else {
        assert(steps_of(steps@) =~= before + wanted);
    }
}

/// The plan that brings the instance rooted at `dot_minecraft` in line with
/// `sync_targets`, from what `snapshot` holds. The relative paths found for
/// the entries of the root decide which left-over links are removed; the
/// rest of the plan is fixed by the arguments.
pub fn apply_to_instance(
    sync_targets: &SyncTargets,
    directories: &LauncherDirectories,
    dot_minecraft: &str,
    snapshot: &Snapshot,
) -> (steps: Vec<Step>)
    ensures
        exists|relatives: Seq<Option<Seq<char>>>|
            steps_of(steps@) == #[trigger] plan_for(
                snapshot@,
                sync_targets.files@,
                sync_targets.folders@,
                directories.instances_dir@,
                directories.synced_dir@,
                dot_minecraft@,
                relatives,
            ),
{
    let ghost world = snapshot@;
    let ghost files = sync_targets.files@;
    let ghost folders = sync_targets.folders@;
    let ghost idir = directories.instances_dir@;
    let ghost sdir = directories.synced_dir@;
    let ghost root = dot_minecraft@;
    let mut steps: Vec<Step> = Vec::new();
    assert(steps_of(steps@) =~= Seq::<StepModel>::empty());
    push_best_effort(&mut steps, Action::CreateDirAll { path: dot_minecraft.to_owned() });
    let relatives = clean_up(sync_targets, directories, dot_minecraft, snapshot, &mut steps);
    let ghost head = steps_of(steps@);
    assert(head =~= seq![best_effort(ActionModel::CreateDirAll { path: root })] + cleanup_pass(
        world,
        folders,
        sdir,
        root,
        relatives@,
    ));

    let n_files = sync_targets.files.len();
    let mut i: usize = 0;
    assert(files.take(0) =~= Seq::<Seq<char>>::empty());
    assert(steps_of(steps@) =~= head + all_file_steps(world, idir, sdir, root, files.take(0)));
    while i < n_files
        invariant
            i <= n_files == files.len(),
            files == sync_targets.files@,
            world == snapshot@,
            idir == directories.instances_dir@,
            sdir == directories.synced_dir@,
            root == dot_minecraft@,
            steps_of(steps@) == head + all_file_steps(world, idir, sdir, root, files.take(i as int)),
        decreases n_files - i,
    {
        let name = sync_targets.files.get(i);
        let ghost so_far = steps_of(steps@);
        sync_file(name.as_str(), directories, dot_minecraft, snapshot, &mut steps);
        proof {
            let upto = files.take(i + 1);
            assert(upto.drop_last() =~= files.take(i as int));
            assert(upto.last() == name@);
            assert(steps_of(steps@) =~= head + all_file_steps(world, idir, sdir, root, upto));
        }
        i += 1;
    }
    assert(files.take(n_files as int) =~= files);

    let ghost middle = steps_of(steps@);
    let n_folders = sync_targets.folders.len();
    let mut j: usize = 0;
    assert(folders.take(0) =~= Seq::<Seq<char>>::empty());
    assert(steps_of(steps@) =~= middle + all_folder_steps(world, sdir, root, folders.take(0)));
    while j < n_folders
        invariant
            j <= n_folders == folders.len(),
            folders == sync_targets.folders@,
            world == snapshot@,
            sdir == directories.synced_dir@,
            root == dot_minecraft@,
            steps_of(steps@) == middle + all_folder_steps(
                world,
                sdir,
                root,
                folders.take(j as int),
            ),
        decreases n_folders - j,
    {
        let name = sync_targets.folders.get(j);
        sync_folder(name.as_str(), directories, dot_minecraft, snapshot, &mut steps);
        proof {
            let upto = folders.take(j + 1);
            assert(upto.drop_last() =~= folders.take(j as int));
            assert(upto.last() == name@);
            assert(steps_of(steps@) =~= middle + all_folder_steps(world, sdir, root, upto));
        }
        j += 1;
    }
    assert(folders.take(n_folders as int) =~= folders);
    assert(steps_of(steps@) == plan_for(world, files, folders, idir, sdir, root, relatives@));
    steps
}

} // verus!
