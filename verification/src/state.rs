//! The status of every target across the instances.
//!
//! For each configured target, and for each well-known folder that is not
//! configured, the state says on how many instances it is shared and on how
//! many something stands in the way. Computing it changes nothing.

use vstd::prelude::*;
use crate::config::SyncTargets;
use crate::linking::{is_targeting, targeting};
use crate::names::{ascending, lemma_ascending_distinct, lemma_insert_ascending, locate};
use crate::observe::{facts_at, Snapshot, World};
use crate::safe_path::{is_safe, normalized, resolve, SafePath};
use crate::text::{chars_of, texts};

verus! {

/// One instance as the registry knows it.
#[derive(Debug)]
pub struct Instance {
    /// The instance's root directory.
    pub dot_minecraft_path: String,
    /// The instance has opted out of sharing.
    pub disable_file_syncing: bool,
}

/// The directories that the application works in.
#[derive(Debug)]
pub struct LauncherDirectories {
    /// The directory that holds one directory for each instance.
    pub instances_dir: String,
    /// The shared store.
    pub synced_dir: String,
}

/// The status of one target.
#[derive(Clone, Copy, Debug, PartialEq, Eq, Structural)]
pub struct SyncTargetState {
    /// The target is configured.
    pub enabled: bool,
    /// The target is a file; otherwise a folder.
    pub is_file: bool,
    /// The number of instances on which the target is shared.
    pub sync_count: usize,
    /// The number of instances on which something stands in the way.
    pub cannot_sync_count: usize,
}

/// The root directories of the instances that take part in sharing, in the
/// order of the registry.
pub open spec fn eligible(instances: Seq<Instance>) -> Seq<Seq<char>>
    decreases instances.len(),
{
    if instances.len() == 0 {
        Seq::empty()
    } else if instances.last().disable_file_syncing {
        eligible(instances.drop_last())
    } else {
        eligible(instances.drop_last()).push(instances.last().dot_minecraft_path@)
    }
}

/// The number of `roots` under which `rel` is a directory.
pub open spec fn count_dirs(world: World, roots: Seq<Seq<char>>, rel: Seq<char>) -> nat
    decreases roots.len(),
{
    if roots.len() == 0 {
        0
    } else {
        count_dirs(world, roots.drop_last(), rel) + if facts_at(
            world,
            resolve(roots.last(), rel),
        ).is_dir {
            1nat
        } else {
            0nat
        }
    }
}

/// The number of `roots` under which `rel` is a link to `shared`.
pub open spec fn count_linked(
    world: World,
    roots: Seq<Seq<char>>,
    rel: Seq<char>,
    shared: Seq<char>,
) -> nat
    decreases roots.len(),
{
    if roots.len() == 0 {
        0
    } else {
        count_linked(world, roots.drop_last(), rel, shared) + if targeting(
            world,
            shared,
            resolve(roots.last(), rel),
        ) {
            1nat
        } else {
            0nat
        }
    }
}

/// The number of `roots` under which `rel` exists and is no link to `shared`.
pub open spec fn count_blocked(
    world: World,
    roots: Seq<Seq<char>>,
    rel: Seq<char>,
    shared: Seq<char>,
) -> nat
    decreases roots.len(),
{
    if roots.len() == 0 {
        0
    } else {
        count_blocked(world, roots.drop_last(), rel, shared) + if !targeting(
            world,
            shared,
            resolve(roots.last(), rel),
        ) && facts_at(world, resolve(roots.last(), rel)).present {
            1nat
        } else {
            0nat
        }
    }
}

/// The status of the file target `name`. A name that is no safe path cannot
/// be shared anywhere. A safe one is blocked where a directory has its place,
/// and shared on all other instances.
pub open spec fn file_state(world: World, roots: Seq<Seq<char>>, name: Seq<char>) -> SyncTargetState {
    if is_safe(name) {
        let blocked = count_dirs(world, roots, normalized(name));
        SyncTargetState {
            enabled: true,
            is_file: true,
            sync_count: (roots.len() - blocked) as usize,
            cannot_sync_count: blocked as usize,
        }
    } else {
        SyncTargetState {
            enabled: true,
            is_file: true,
            sync_count: 0,
            cannot_sync_count: roots.len() as usize,
        }
    }
}

/// The status of the folder target `name`. A name that is no safe path cannot
/// be shared anywhere. For a safe one, an instance counts as shared where the
/// folder is a link to its place in the store, as blocked where it exists and
/// is no such link, and as neither where it does not exist.
pub open spec fn folder_state(
    world: World,
    roots: Seq<Seq<char>>,
    synced_dir: Seq<char>,
    name: Seq<char>,
    enabled: bool,
) -> SyncTargetState {
    if is_safe(name) {
        let rel = normalized(name);
        let shared = resolve(synced_dir, rel);
        SyncTargetState {
            enabled,
            is_file: false,
            sync_count: count_linked(world, roots, rel, shared) as usize,
            cannot_sync_count: count_blocked(world, roots, rel, shared) as usize,
        }
    } else {
        SyncTargetState {
            enabled,
            is_file: false,
            sync_count: 0,
            cannot_sync_count: roots.len() as usize,
        }
    }
}

/// The well-known folders, which are reported even when not configured.
pub open spec fn default_folder_names() -> Seq<Seq<char>> {
    seq![
        "saves"@,
        "config"@,
        "screenshots"@,
        "resourcepacks"@,
        "shaderpacks"@,
        "flashback"@,
        "Distant_Horizons_server_data"@,
        ".voxy"@,
        "xaero"@,
        ".bobby"@,
        "schematics"@,
    ]
}

/// The well-known folders.
pub fn default_folders() -> (folders: Vec<String>)
    ensures
        texts(folders@) == default_folder_names(),
{
    let mut folders: Vec<String> = Vec::new();
    folders.push("saves".to_owned());
    folders.push("config".to_owned());
    folders.push("screenshots".to_owned());
    folders.push("resourcepacks".to_owned());
    folders.push("shaderpacks".to_owned());
    folders.push("flashback".to_owned());
    folders.push("Distant_Horizons_server_data".to_owned());
    folders.push(".voxy".to_owned());
    folders.push("xaero".to_owned());
    folders.push(".bobby".to_owned());
    folders.push("schematics".to_owned());
    assert(texts(folders@) =~= default_folder_names());
    folders
}

/// The status of every target: of each configured file, of each configured
/// folder, and of each well-known folder that is not configured, which is
/// reported as not enabled. A name configured both as a file and as a folder
/// is reported as the folder.
pub open spec fn expected_targets(
    world: World,
    files: Seq<Seq<char>>,
    folders: Seq<Seq<char>>,
    roots: Seq<Seq<char>>,
    synced_dir: Seq<char>,
) -> Map<Seq<char>, SyncTargetState> {
    Map::new(
        |name: Seq<char>|
            files.contains(name) || folders.contains(name) || default_folder_names().contains(
                name,
            ),
        |name: Seq<char>|
            if folders.contains(name) {
                folder_state(world, roots, synced_dir, name, true)
            } else if default_folder_names().contains(name) {
                folder_state(world, roots, synced_dir, name, false)
            } else {
                file_state(world, roots, name)
            },
    )
}

/// The mapping that parallel sequences of names and states describe.
pub open spec fn table_of(names: Seq<Seq<char>>, states: Seq<SyncTargetState>) -> Map<
    Seq<char>,
    SyncTargetState,
> {
    Map::new(|name: Seq<char>| names.contains(name), |name: Seq<char>| states[names.index_of(name)])
}

/// Where names are ascending, the name at a position maps to the state at
/// that position.
proof fn lemma_table_entry(names: Seq<Seq<char>>, states: Seq<SyncTargetState>, k: int)
    requires
        ascending(names),
        names.len() == states.len(),
        0 <= k < names.len(),
    ensures
        table_of(names, states).dom().contains(names[k]),
        table_of(names, states)[names[k]] == states[k],
{
    lemma_ascending_distinct(names);
    assert(names.contains(names[k]));
    let found = names.index_of(names[k]);
    assert(0 <= found < names.len() && names[found] == names[k]);
}

/// The states of the targets by name, in ascending order of the names.
#[derive(Debug)]
pub struct TargetStates {
    names: Vec<String>,
    states: Vec<SyncTargetState>,
}

impl TargetStates {
    #[verifier::type_invariant]
    closed spec fn ordered(&self) -> bool {
        ascending(texts(self.names@)) && self.names@.len() == self.states@.len()
    }

    /// The names, in ascending order.
    pub closed spec fn names(&self) -> Seq<Seq<char>> {
        texts(self.names@)
    }

    /// The state of each name.
    pub closed spec fn as_map(&self) -> Map<Seq<char>, SyncTargetState> {
        table_of(texts(self.names@), self.states@)
    }

    /// No targets.
    pub fn new() -> (table: TargetStates)
        ensures
            table.as_map() == Map::<Seq<char>, SyncTargetState>::empty(),
            table.names().len() == 0,
    {
        let table = TargetStates { names: Vec::new(), states: Vec::new() };
        assert(table.as_map() =~= Map::<Seq<char>, SyncTargetState>::empty());
        table
    }

    /// The number of targets. The names are ascending, and they are the
    /// names that have a state.
    pub fn len(&self) -> (n: usize)
        ensures
            n == self.names().len(),
            ascending(self.names()),
            self.as_map().dom() == self.names().to_set(),
    {
        proof {
            use_type_invariant(self);
            assert(self.as_map().dom() =~= self.names().to_set());
        }
        self.names.len()
    }

    /// The name at position `i` of the ascending order.
    pub fn name_at(&self, i: usize) -> (name: &String)
        requires
            i < self.names().len(),
        ensures
            name@ == self.names()[i as int],
    {
        proof {
            use_type_invariant(self);
        }
        &self.names[i]
    }

    /// The state of the name at position `i` of the ascending order.
    pub fn state_at(&self, i: usize) -> (state: SyncTargetState)
        requires
            i < self.names().len(),
        ensures
            self.as_map().dom().contains(self.names()[i as int]),
            state == self.as_map()[self.names()[i as int]],
    {
        proof {
            use_type_invariant(self);
            lemma_table_entry(texts(self.names@), self.states@, i as int);
        }
        self.states[i]
    }

    /// The state of `name`, if it has one.
    pub fn get(&self, name: &str) -> (state: Option<SyncTargetState>)
        ensures
            state is Some == self.as_map().dom().contains(name@),
            state matches Some(s) ==> s == self.as_map()[name@],
    {
        proof {
            use_type_invariant(self);
        }
        let key = chars_of(name);
        let found = locate(&self.names, &key);
        if found.1 {
            proof {
                lemma_table_entry(texts(self.names@), self.states@, found.0 as int);
            }
            Some(self.states[found.0])
        } else {
            None
        }
    }

    /// Gives `name` the state `state`, in place of any it had.
    pub fn insert(&mut self, name: &str, state: SyncTargetState)
        ensures
            final(self).as_map() == old(self).as_map().insert(name@, state),
    {
        proof {
            use_type_invariant(&*self);
        }
        let key = chars_of(name);
        let found = locate(&self.names, &key);
        let ghost names_before = texts(self.names@);
        let ghost states_before = self.states@;
        let mut taken = TargetStates { names: Vec::new(), states: Vec::new() };
        std::mem::swap(self, &mut taken);
        let mut names = taken.names;
        let mut states = taken.states;
        let at = found.0;
        if found.1 {
            states.set(at, state);
            proof {
                lemma_ascending_distinct(names_before);
                assert forall|n: Seq<char>| names_before.contains(n) implies #[trigger] table_of(
                    names_before,
                    states@,
                )[n] == table_of(names_before, states_before).insert(name@, state)[n] by {
                    let k = names_before.index_of(n);
                    assert(names_before[k] == n);
                }
                assert(table_of(names_before, states@) =~= table_of(
                    names_before,
                    states_before,
                ).insert(name@, state));
            }
        } else {
            names.insert(at, name.to_owned());
            states.insert(at, state);
            proof {
                let names_after = texts(names@);
                assert(names_after =~= names_before.insert(at as int, name@));
                lemma_insert_ascending(names_before, name@, at as int);
                lemma_ascending_distinct(names_before);
                lemma_ascending_distinct(names_after);
                let before = table_of(names_before, states_before);
                let after = table_of(names_after, states@);
                assert forall|n: Seq<char>| after.dom().contains(n) == before.insert(
                    name@,
                    state,
                ).dom().contains(n) by {
                    if names_after.contains(n) {
                        let k = choose|k: int| 0 <= k < names_after.len() && names_after[k] == n;
                        if k < at {
                            assert(names_before[k] == n);
                        } else if k > at {
                            assert(names_before[k - 1] == n);
                        }
                    }
                    if names_before.contains(n) {
                        let k = choose|k: int| 0 <= k < names_before.len() && names_before[k] == n;
                        if k < at {
                            assert(names_after[k] == n);
                        } else {
                            assert(names_after[k + 1] == n);
                        }
                    }
                    if n == name@ {
                        assert(names_after[at as int] == n);
                    }
                }
                assert forall|n: Seq<char>| after.dom().contains(n) implies #[trigger] after[n]
                    == before.insert(name@, state)[n] by {
                    let k = names_after.index_of(n);
                    assert(names_after[k] == n);
                    lemma_table_entry(names_after, states@, k);
                    if k < at {
                        lemma_table_entry(names_before, states_before, k);
                    } else if k > at {
                        lemma_table_entry(names_before, states_before, k - 1);
                    }
                }
                assert(after =~= before.insert(name@, state));
            }
        }
        *self = TargetStates { names, states };
    }
}

/// The status of all targets across the instances.
#[derive(Debug)]
pub struct SyncState {
    /// The shared store.
    pub sync_folder: String,
    /// The status of each target, by name.
    pub targets: TargetStates,
    /// The number of instances that take part in sharing.
    pub total_count: usize,
}

/// The root directories of the instances that take part in sharing.
pub fn eligible_roots(instances: &Vec<Instance>) -> (roots: Vec<String>)
    ensures
        texts(roots@) == eligible(instances@),
        roots@.len() <= instances@.len(),
{
    let mut roots: Vec<String> = Vec::new();
    let mut i: usize = 0;
    assert(instances@.take(0) =~= Seq::<Instance>::empty());
    assert(texts(roots@) =~= eligible(instances@.take(0)));
    while i < instances.len()
        invariant
            i <= instances.len(),
            roots@.len() <= i,
            texts(roots@) == eligible(instances@.take(i as int)),
        decreases instances.len() - i,
    {
        let ghost before = texts(roots@);
        assert(instances@.take(i + 1).drop_last() =~= instances@.take(i as int));
        if !instances[i].disable_file_syncing {
            roots.push(instances[i].dot_minecraft_path.clone());
            assert(texts(roots@) =~= before.push(instances@[i as int].dot_minecraft_path@));
        }
        i += 1;
    }
    assert(instances@.take(instances.len() as int) =~= instances@);
    roots
}

/// Counts, over the roots, the three standings of the folder `rel`.
fn count_folder(roots: &Vec<String>, rel: &SafePath, shared: &str, snapshot: &Snapshot) -> (counts:
    (usize, usize))
    ensures
        counts.0 == count_linked(snapshot@, texts(roots@), rel@, shared@),
        counts.1 == count_blocked(snapshot@, texts(roots@), rel@, shared@),
        counts.0 + counts.1 <= roots@.len(),
{
    let mut linked: usize = 0;
    let mut blocked: usize = 0;
    let mut i: usize = 0;
    assert(texts(roots@).take(0) =~= Seq::<Seq<char>>::empty());
    while i < roots.len()
        invariant
            i <= roots.len(),
            linked + blocked <= i,
            linked == count_linked(snapshot@, texts(roots@).take(i as int), rel@, shared@),
            blocked == count_blocked(snapshot@, texts(roots@).take(i as int), rel@, shared@),
        decreases roots.len() - i,
    {
        let path = rel.to_path(roots[i].as_str());
        proof {
            let upto = texts(roots@).take(i + 1);
            assert(upto.drop_last() =~= texts(roots@).take(i as int));
            assert(upto.last() == roots@[i as int]@);
        }
        if is_targeting(shared, path.as_str(), snapshot) {
            linked += 1;
        } else {
            let seen = snapshot.look(path.as_str());
            let present = match seen {
                Some(o) => o.present,
                None => false,
            };
            assert(present == facts_at(snapshot@, path@).present);
            if present {
                blocked += 1;
            }
        }
        i += 1;
    }
    assert(texts(roots@).take(roots.len() as int) =~= texts(roots@));
    (linked, blocked)
}

/// Counts the roots under which `rel` is a directory.
fn count_directories(roots: &Vec<String>, rel: &SafePath, snapshot: &Snapshot) -> (count: usize)
    ensures
        count == count_dirs(snapshot@, texts(roots@), rel@),
        count <= roots@.len(),
{
    let mut count: usize = 0;
    let mut i: usize = 0;
    assert(texts(roots@).take(0) =~= Seq::<Seq<char>>::empty());
    while i < roots.len()
        invariant
            i <= roots.len(),
            count <= i,
            count == count_dirs(snapshot@, texts(roots@).take(i as int), rel@),
        decreases roots.len() - i,
    {
        let path = rel.to_path(roots[i].as_str());
        proof {
            let upto = texts(roots@).take(i + 1);
            assert(upto.drop_last() =~= texts(roots@).take(i as int));
            assert(upto.last() == roots@[i as int]@);
        }
        let seen = snapshot.look(path.as_str());
        let is_dir = match seen {
            Some(o) => o.is_dir,
            None => false,
        };
        assert(is_dir == facts_at(snapshot@, path@).is_dir);
        if is_dir {
            count += 1;
        }
        i += 1;
    }
    assert(texts(roots@).take(roots.len() as int) =~= texts(roots@));
    count
}

/// The status of the file target `name` over `roots`.
pub fn file_target_state(name: &str, roots: &Vec<String>, snapshot: &Snapshot) -> (state:
    SyncTargetState)
    ensures
        state == file_state(snapshot@, texts(roots@), name@),
{
    let total = roots.len();
    match SafePath::new(name) {
        Some(rel) => {
            let blocked = count_directories(roots, &rel, snapshot);
            SyncTargetState {
                enabled: true,
                is_file: true,
                sync_count: total - blocked,
                cannot_sync_count: blocked,
            }
        },
        None => SyncTargetState {
            enabled: true,
            is_file: true,
            sync_count: 0,
            cannot_sync_count: total,
        },
    }
}

/// The status of the folder target `name` over `roots`.
pub fn folder_target_state(
    name: &str,
    enabled: bool,
    roots: &Vec<String>,
    synced_dir: &str,
    snapshot: &Snapshot,
) -> (state: SyncTargetState)
    ensures
        state == folder_state(snapshot@, texts(roots@), synced_dir@, name@, enabled),
{
    let total = roots.len();
    match SafePath::new(name) {
        Some(rel) => {
            let shared = rel.to_path(synced_dir);
            let counts = count_folder(roots, &rel, shared.as_str(), snapshot);
            SyncTargetState {
                enabled,
                is_file: false,
                sync_count: counts.0,
                cannot_sync_count: counts.1,
            }
        },
        None => SyncTargetState {
            enabled,
            is_file: false,
            sync_count: 0,
            cannot_sync_count: total,
        },
    }
}

/// The status of every target across the instances that take part in
/// sharing, from what `snapshot` holds of their paths.
pub fn get_sync_state(
    sync_targets: &SyncTargets,
    instances: &Vec<Instance>,
    directories: &LauncherDirectories,
    snapshot: &Snapshot,
) -> (state: SyncState)
    ensures
        state.sync_folder@ == directories.synced_dir@,
        state.total_count == eligible(instances@).len(),
        state.targets.as_map() == expected_targets(
            snapshot@,
            sync_targets.files@,
            sync_targets.folders@,
            eligible(instances@),
            directories.synced_dir@,
        ),
{
    let roots = eligible_roots(instances);
    let total = roots.len();
    let synced_dir = directories.synced_dir.as_str();
    let ghost world = snapshot@;
    let ghost files = sync_targets.files@;
    let ghost folders = sync_targets.folders@;
    let ghost rs = texts(roots@);
    let ghost shared = directories.synced_dir@;
    let mut entries = TargetStates::new();

    let mut i: usize = 0;
    let n_files = sync_targets.files.len();
    assert(entries.as_map() =~= Map::new(
        |n: Seq<char>| files.take(0).contains(n),
        |n: Seq<char>| file_state(world, rs, n),
    ));
    while i < n_files
        invariant
            i <= n_files == files.len(),
            files == sync_targets.files@,
            rs == texts(roots@),
            world == snapshot@,
            entries.as_map() == Map::new(
                |n: Seq<char>| files.take(i as int).contains(n),
                |n: Seq<char>| file_state(world, rs, n),
            ),
        decreases n_files - i,
    {
        let name = sync_targets.files.get(i);
        let state = file_target_state(name.as_str(), &roots, snapshot);
        entries.insert(name.as_str(), state);
        proof {
            let before = files.take(i as int);
            let after = files.take(i + 1);
            assert(after =~= before.push(files[i as int]));
            assert forall|n: Seq<char>| after.contains(n) == (before.contains(n) || n
                == files[i as int]) by {
                if after.contains(n) {
                    let k = choose|k: int| 0 <= k < after.len() && after[k] == n;
                    if k < i {
                        assert(before[k] == n);
                    }
                }
                if before.contains(n) {
                    let k = choose|k: int| 0 <= k < before.len() && before[k] == n;
                    assert(after[k] == n);
                }
                if n == files[i as int] {
                    assert(after[i as int] == n);
                }
            }
            assert(entries.as_map() =~= Map::new(
                |n: Seq<char>| after.contains(n),
                |n: Seq<char>| file_state(world, rs, n),
            ));
        }
        i += 1;
    }
    assert(files.take(n_files as int) =~= files);

    let defaults = default_folders();
    let ghost ds = default_folder_names();
    let mut j: usize = 0;
    let n_folders = sync_targets.folders.len();
    let n_defaults = defaults.len();
    assert(folders.take(0) =~= Seq::<Seq<char>>::empty());
    assert(entries.as_map() =~= overlay(world, files, folders.take(0), ds.take(0), folders, rs, shared));
    while j < n_folders
        invariant
            j <= n_folders == folders.len(),
            folders == sync_targets.folders@,
            rs == texts(roots@),
            world == snapshot@,
            shared == synced_dir@,
            entries.as_map() == overlay(
                world,
                files,
                folders.take(j as int),
                ds.take(0),
                folders,
                rs,
                shared,
            ),
        decreases n_folders - j,
    {
        let name = sync_targets.folders.get(j);
        let state = folder_target_state(name.as_str(), true, &roots, synced_dir, snapshot);
        entries.insert(name.as_str(), state);
        proof {
            let before = folders.take(j as int);
            let after = folders.take(j + 1);
            assert(after =~= before.push(folders[j as int]));
            assert(folders.contains(folders[j as int]));
            assert forall|n: Seq<char>| after.contains(n) == (before.contains(n) || n
                == folders[j as int]) by {
                if after.contains(n) {
                    let k = choose|k: int| 0 <= k < after.len() && after[k] == n;
                    if k < j {
                        assert(before[k] == n);
                    }
                }
                if before.contains(n) {
                    let k = choose|k: int| 0 <= k < before.len() && before[k] == n;
                    assert(after[k] == n);
                }
                if n == folders[j as int] {
                    assert(after[j as int] == n);
                }
            }
            assert(entries.as_map() =~= overlay(world, files, after, ds.take(0), folders, rs, shared));
        }
        j += 1;
    }
    assert(folders.take(n_folders as int) =~= folders);

    let mut k: usize = 0;
    while k < n_defaults
        invariant
            k <= n_defaults == ds.len(),
            ds == default_folder_names(),
            texts(defaults@) == ds,
            folders == sync_targets.folders@,
            rs == texts(roots@),
            world == snapshot@,
            shared == synced_dir@,
            entries.as_map() == overlay(world, files, folders, ds.take(k as int), folders, rs, shared),
        decreases n_defaults - k,
    {
        let name = defaults[k].as_str();
        assert(name@ == ds[k as int]);
        let configured = sync_targets.folders.contains(name);
        if !configured {
            let state = folder_target_state(name, false, &roots, synced_dir, snapshot);
            entries.insert(name, state);
        }
        proof {
            let before = ds.take(k as int);
            let after = ds.take(k + 1);
            assert(after =~= before.push(ds[k as int]));
            assert(ds.contains(ds[k as int]));
            assert forall|n: Seq<char>| after.contains(n) == (before.contains(n) || n
                == ds[k as int]) by {
                if after.contains(n) {
                    let q = choose|q: int| 0 <= q < after.len() && after[q] == n;
                    if q < k {
                        assert(before[q] == n);
                    }
                }
                if before.contains(n) {
                    let q = choose|q: int| 0 <= q < before.len() && before[q] == n;
                    assert(after[q] == n);
                }
                if n == ds[k as int] {
                    assert(after[k as int] == n);
                }
            }
            assert(entries.as_map() =~= overlay(world, files, folders, after, folders, rs, shared));
        }
        k += 1;
    }
    proof {
        assert(ds.take(n_defaults as int) =~= ds);
        assert(entries.as_map() =~= expected_targets(world, files, folders, rs, shared));
    }
    SyncState { sync_folder: directories.synced_dir.clone(), targets: entries, total_count: total }
}

/// The state table while it is being filled: every file has its state, and
/// over that the folders in `done` and the well-known folders in
/// `defaults_done` that are not among `folders`.
spec fn overlay(
    world: World,
    files: Seq<Seq<char>>,
    done: Seq<Seq<char>>,
    defaults_done: Seq<Seq<char>>,
    folders: Seq<Seq<char>>,
    roots: Seq<Seq<char>>,
    synced_dir: Seq<char>,
) -> Map<Seq<char>, SyncTargetState> {
    Map::new(
        |name: Seq<char>| files.contains(name) || done.contains(name) || defaults_done.contains(name),
        |name: Seq<char>|
            if done.contains(name) {
                folder_state(world, roots, synced_dir, name, true)
            } else if defaults_done.contains(name) && !folders.contains(name) {
                folder_state(world, roots, synced_dir, name, false)
            } else {
                file_state(world, roots, name)
            },
    )
}

} // verus!
