//! Which paths an operation needs to have looked at.
//!
//! An operation decides on a snapshot. Before it is called, its caller asks
//! here which paths the operation reads that the snapshot does not hold
//! yet, looks at them, records what it saw, and asks again, until nothing
//! is wanted. A second round is needed where the first brings a listing
//! whose entries are read in turn.

use vstd::prelude::*;
use crate::config::SyncTargets;
use crate::latest::instance_root;
use crate::observe::{facts_at, Snapshot, World};
use crate::reconcile::{fallback_name, options_name};
use crate::safe_path::{is_safe, join, normalized, resolve, SafePath};
use crate::state::{
    default_folder_names, default_folders, eligible, eligible_roots, Instance, LauncherDirectories,
};
use crate::text::{chars_of, same_chars, same_text, texts};

verus! {

/// A path to look at, and what to read there besides the entry's kind, its
/// link target and its time stamp.
#[derive(Clone, Debug, PartialEq, Eq)]
pub struct Probe {
    pub path: String,
    /// Read the file's text.
    pub read_text: bool,
    /// List the directory's entries.
    pub list_entries: bool,
}

/// The mathematical content of a `Probe`.
pub struct ProbeModel {
    pub path: Seq<char>,
    pub read_text: bool,
    pub list_entries: bool,
}

impl View for Probe {
    type V = ProbeModel;

    open spec fn view(&self) -> ProbeModel {
        ProbeModel { path: self.path@, read_text: self.read_text, list_entries: self.list_entries }
    }
}

/// The contents of a list of probes.
pub open spec fn probes_of(list: Seq<Probe>) -> Seq<ProbeModel> {
    Seq::new(list.len(), |i: int| list[i]@)
}

/// A look at `path` that reads nothing more.
pub open spec fn plain(path: Seq<char>) -> ProbeModel {
    ProbeModel { path, read_text: false, list_entries: false }
}

/// A look at `path` that reads the file's text.
pub open spec fn with_text(path: Seq<char>) -> ProbeModel {
    ProbeModel { path, read_text: true, list_entries: false }
}

/// A look at `path` that lists the directory's entries.
pub open spec fn with_entries(path: Seq<char>) -> ProbeModel {
    ProbeModel { path, read_text: false, list_entries: true }
}

/// The position of the probe of `path`, or the length where there is none.
pub open spec fn probe_index(list: Seq<ProbeModel>, path: Seq<char>) -> int
    decreases list.len(),
{
    if list.len() == 0 {
        0
    } else if list[0].path == path {
        0
    } else {
        1 + probe_index(list.drop_first(), path)
    }
}

/// `list` with `probe` added: where its path is probed already, that probe
/// reads what either reads; otherwise the probe is put at the end.
pub open spec fn added(list: Seq<ProbeModel>, probe: ProbeModel) -> Seq<ProbeModel> {
    let i = probe_index(list, probe.path);
    if 0 <= i < list.len() {
        list.update(
            i,
            ProbeModel {
                path: probe.path,
                read_text: list[i].read_text || probe.read_text,
                list_entries: list[i].list_entries || probe.list_entries,
            },
        )
    } else {
        list.push(probe)
    }
}

/// The probes of `raw` with each path probed once.
pub open spec fn gathered(raw: Seq<ProbeModel>) -> Seq<ProbeModel>
    decreases raw.len(),
{
    if raw.len() == 0 {
        Seq::empty()
    } else {
        added(gathered(raw.drop_last()), raw.last())
    }
}

/// The probes of `list` whose path `world` does not hold, in order.
pub open spec fn unseen(world: World, list: Seq<ProbeModel>) -> Seq<ProbeModel>
    decreases list.len(),
{
    if list.len() == 0 {
        Seq::empty()
    } else if world.dom().contains(list.last().path) {
        unseen(world, list.drop_last())
    } else {
        unseen(world, list.drop_last()).push(list.last())
    }
}

/// What is still to be looked at of `raw`: each path once, and none that
/// `world` holds.
pub open spec fn outstanding(world: World, raw: Seq<ProbeModel>) -> Seq<ProbeModel> {
    unseen(world, gathered(raw))
}

/// The position of the probe of `path` in `list`.
fn find_probe(list: &Vec<Probe>, path: &Vec<char>) -> (at: usize)
    ensures
        at == probe_index(probes_of(list@), path@),
        at <= list@.len(),
{
    let ghost models = probes_of(list@);
    let mut i: usize = 0;
    assert(models.skip(0) =~= models);
    while i < list.len()
        invariant
            i <= list.len(),
            models == probes_of(list@),
            probe_index(models, path@) == i + probe_index(models.skip(i as int), path@),
        decreases list.len() - i,
    {
        let here = chars_of(list[i].path.as_str());
        let ghost tail = models.skip(i as int);
        assert(tail[0] == models[i as int]);
        if same_chars(&here, path) {
            return i;
        }
        assert(tail.drop_first() =~= models.skip(i + 1));
        i += 1;
    }
    assert(models.skip(i as int).len() == 0);
    i
}

/// The probes that are still to be made of `raw`.
pub fn still_wanted(raw: Vec<Probe>, snapshot: &Snapshot) -> (wanted: Vec<Probe>)
    ensures
        probes_of(wanted@) == outstanding(snapshot@, probes_of(raw@)),
{
    let mut once: Vec<Probe> = Vec::new();
    let mut raw = raw;
    let ghost all = probes_of(raw@);
    let n = raw.len();
    let mut i: usize = 0;
    assert(all.take(0) =~= Seq::<ProbeModel>::empty());
    assert(probes_of(once@) =~= gathered(all.take(0)));
    // The probes are taken from the back, so the list is turned over first.
    let mut turned: Vec<Probe> = Vec::new();
    while raw.len() > 0
        invariant
            raw@.len() + turned@.len() == n,
            n == all.len(),
            forall|k: int| 0 <= k < raw@.len() ==> (#[trigger] raw@[k])@ == all[k],
            forall|k: int|
                0 <= k < turned@.len() ==> (#[trigger] turned@[k])@ == all[n - 1 - k],
        decreases raw.len(),
    {
        let probe = raw.pop().unwrap();
        turned.push(probe);
    }
    while i < n
        invariant
            i <= n == all.len(),
            turned@.len() == n - i,
            forall|k: int|
                0 <= k < turned@.len() ==> (#[trigger] turned@[k])@ == all[n - 1 - k],
            probes_of(once@) == gathered(all.take(i as int)),
        decreases n - i,
    {
        let probe = turned.pop().unwrap();
        assert(probe@ == all[i as int]);
        let key = chars_of(probe.path.as_str());
        let at = find_probe(&once, &key);
        let ghost before = probes_of(once@);
        proof {
            let upto = all.take(i + 1);
            assert(upto.drop_last() =~= all.take(i as int));
            assert(upto.last() == probe@);
        }
        if at < once.len() {
            let merged = Probe {
                path: probe.path,
                read_text: once[at].read_text || probe.read_text,
                list_entries: once[at].list_entries || probe.list_entries,
            };
            once.set(at, merged);
            assert(probes_of(once@) =~= added(before, probe@));
        } else {
            once.push(probe);
            assert(probes_of(once@) =~= added(before, probe@));
        }
        i += 1;
    }
    assert(all.take(n as int) =~= all);
    let ghost each = probes_of(once@);
    let mut wanted: Vec<Probe> = Vec::new();
    let mut turned_once: Vec<Probe> = Vec::new();
    let m = once.len();
    while once.len() > 0
        invariant
            once@.len() + turned_once@.len() == m,
            m == each.len(),
            forall|k: int| 0 <= k < once@.len() ==> (#[trigger] once@[k])@ == each[k],
            forall|k: int|
                0 <= k < turned_once@.len() ==> (#[trigger] turned_once@[k])@ == each[m - 1 - k],
        decreases once.len(),
    {
        let probe = once.pop().unwrap();
        turned_once.push(probe);
    }
    let mut j: usize = 0;
    assert(each.take(0) =~= Seq::<ProbeModel>::empty());
    assert(probes_of(wanted@) =~= unseen(snapshot@, each.take(0)));
    while j < m
        invariant
            j <= m == each.len(),
            turned_once@.len() == m - j,
            forall|k: int|
                0 <= k < turned_once@.len() ==> (#[trigger] turned_once@[k])@ == each[m - 1 - k],
            probes_of(wanted@) == unseen(snapshot@, each.take(j as int)),
        decreases m - j,
    {
        let probe = turned_once.pop().unwrap();
        assert(probe@ == each[j as int]);
        let ghost before = probes_of(wanted@);
        proof {
            let upto = each.take(j + 1);
            assert(upto.drop_last() =~= each.take(j as int));
            assert(upto.last() == probe@);
        }
        if !snapshot.has(probe.path.as_str()) {
            wanted.push(probe);
            assert(probes_of(wanted@) =~= before.push(probe@));
        }
        j += 1;
    }
    assert(each.take(m as int) =~= each);
    wanted
}

/// A plain look at the place of `rel` under each of `roots`.
pub open spec fn places(roots: Seq<Seq<char>>, rel: Seq<char>) -> Seq<ProbeModel> {
    Seq::new(roots.len(), |i: int| plain(resolve(roots[i], rel)))
}

/// A plain look at the place of `name` under each of `roots`; nothing for a
/// name that is no safe path.
pub open spec fn name_places(roots: Seq<Seq<char>>, name: Seq<char>) -> Seq<ProbeModel> {
    if is_safe(name) {
        places(roots, normalized(name))
    } else {
        Seq::empty()
    }
}

/// `name_places` for each of `names`, in order.
pub open spec fn names_places(roots: Seq<Seq<char>>, names: Seq<Seq<char>>) -> Seq<ProbeModel>
    decreases names.len(),
{
    if names.len() == 0 {
        Seq::empty()
    } else {
        names_places(roots, names.drop_last()) + name_places(roots, names.last())
    }
}

/// Appends a plain look at the place of `name` under each of `roots`.
fn push_name_places(out: &mut Vec<Probe>, roots: &Vec<String>, name: &str)
    ensures
        probes_of(final(out)@) == probes_of(old(out)@) + name_places(texts(roots@), name@),
{
    let ghost before = probes_of(out@);
    let Some(rel) = SafePath::new(name) else {
        assert(probes_of(out@) =~= before + name_places(texts(roots@), name@));
        return ;
    };
    let mut i: usize = 0;
    let ghost all = places(texts(roots@), rel@);
    assert(all.take(0) =~= Seq::<ProbeModel>::empty());
    assert(probes_of(out@) =~= before + all.take(0));
    while i < roots.len()
        invariant
            i <= roots.len(),
            all == places(texts(roots@), rel@),
            probes_of(out@) == before + all.take(i as int),
        decreases roots.len() - i,
    {
        let ghost so_far = probes_of(out@);
        let path = rel.to_path(roots[i].as_str());
        out.push(Probe { path, read_text: false, list_entries: false });
        assert(probes_of(out@) =~= so_far.push(all[i as int]));
        assert(all.take(i + 1) =~= all.take(i as int).push(all[i as int]));
        i += 1;
    }
    assert(all.take(roots.len() as int) =~= all);
}

/// Appends `name_places` for each name of `names`.
fn push_names_places(out: &mut Vec<Probe>, roots: &Vec<String>, names: &Vec<String>)
    ensures
        probes_of(final(out)@) == probes_of(old(out)@) + names_places(texts(roots@), texts(names@)),
{
    let ghost before = probes_of(out@);
    let ghost ns = texts(names@);
    let mut i: usize = 0;
    assert(ns.take(0) =~= Seq::<Seq<char>>::empty());
    assert(probes_of(out@) =~= before + names_places(texts(roots@), ns.take(0)));
    while i < names.len()
        invariant
            i <= names.len(),
            ns == texts(names@),
            probes_of(out@) == before + names_places(texts(roots@), ns.take(i as int)),
        decreases names.len() - i,
    {
        push_name_places(out, roots, names[i].as_str());
        proof {
            let upto = ns.take(i + 1);
            assert(upto.drop_last() =~= ns.take(i as int));
            assert(upto.last() == names@[i as int]@);
            assert(probes_of(out@) =~= before + names_places(texts(roots@), upto));
        }
        i += 1;
    }
    assert(ns.take(names.len() as int) =~= ns);
}

/// The names of a set, as a list.
fn names_of(set: &crate::names::NameSet) -> (list: Vec<String>)
    ensures
        texts(list@) == set@,
{
    let mut list: Vec<String> = Vec::new();
    let n = set.len();
    let mut i: usize = 0;
    while i < n
        invariant
            i <= n == set@.len(),
            list@.len() == i,
            forall|k: int| 0 <= k < i ==> (#[trigger] list@[k])@ == set@[k],
        decreases n - i,
    {
        list.push(set.get(i).clone());
        i += 1;
    }
    assert(texts(list@) =~= set@);
    list
}

/// Every path that the status of the targets is read from: the place of
/// each configured file, of each configured folder and of each well-known
/// folder, on each instance that takes part in sharing.
pub open spec fn state_reads(
    files: Seq<Seq<char>>,
    folders: Seq<Seq<char>>,
    roots: Seq<Seq<char>>,
) -> Seq<ProbeModel> {
    names_places(roots, files) + names_places(roots, folders) + names_places(
        roots,
        default_folder_names(),
    )
}

/// What `get_sync_state` reads and `snapshot` does not hold yet.
pub fn sync_state_probes(
    sync_targets: &SyncTargets,
    instances: &Vec<Instance>,
    snapshot: &Snapshot,
) -> (wanted: Vec<Probe>)
    ensures
        probes_of(wanted@) == outstanding(
            snapshot@,
            state_reads(sync_targets.files@, sync_targets.folders@, eligible(instances@)),
        ),
{
    let roots = eligible_roots(instances);
    let mut raw: Vec<Probe> = Vec::new();
    assert(probes_of(raw@) =~= Seq::<ProbeModel>::empty());
    let files = names_of(&sync_targets.files);
    let folders = names_of(&sync_targets.folders);
    let defaults = default_folders();
    push_names_places(&mut raw, &roots, &files);
    push_names_places(&mut raw, &roots, &folders);
    push_names_places(&mut raw, &roots, &defaults);
    assert(probes_of(raw@) =~= state_reads(
        sync_targets.files@,
        sync_targets.folders@,
        eligible(instances@),
    ));
    still_wanted(raw, snapshot)
}

/// Every path that enabling a target is decided from: for a folder, its
/// place on each instance that takes part in sharing.
pub open spec fn enable_reads(name: Seq<char>, is_file: bool, roots: Seq<Seq<char>>) -> Seq<
    ProbeModel,
> {
    if is_file {
        Seq::empty()
    } else {
        name_places(roots, name)
    }
}

/// What `enable_all` reads and `snapshot` does not hold yet.
pub fn enable_probes(name: &str, is_file: bool, instances: &Vec<Instance>, snapshot: &Snapshot) -> (wanted:
    Vec<Probe>)
    ensures
        probes_of(wanted@) == outstanding(
            snapshot@,
            enable_reads(name@, is_file, eligible(instances@)),
        ),
{
    let mut raw: Vec<Probe> = Vec::new();
    assert(probes_of(raw@) =~= Seq::<ProbeModel>::empty());
    if !is_file {
        let roots = eligible_roots(instances);
        push_name_places(&mut raw, &roots, name);
        assert(probes_of(raw@) =~= enable_reads(name@, is_file, eligible(instances@)));
    }
    still_wanted(raw, snapshot)
}

/// Every path that disabling a target is planned from: for a folder with a
/// safe name, the listing of the instances directory.
pub open spec fn disable_reads(name: Seq<char>, is_file: bool, instances_dir: Seq<char>) -> Seq<
    ProbeModel,
> {
    if is_file || !is_safe(name) {
        Seq::empty()
    } else {
        seq![with_entries(instances_dir)]
    }
}

/// What `disable_all` reads and `snapshot` does not hold yet.
pub fn disable_probes(
    name: &str,
    is_file: bool,
    directories: &LauncherDirectories,
    snapshot: &Snapshot,
) -> (wanted: Vec<Probe>)
    ensures
        probes_of(wanted@) == outstanding(
            snapshot@,
            disable_reads(name@, is_file, directories.instances_dir@),
        ),
{
    let mut raw: Vec<Probe> = Vec::new();
    assert(probes_of(raw@) =~= Seq::<ProbeModel>::empty());
    if !is_file && SafePath::new(name).is_some() {
        raw.push(
            Probe { path: directories.instances_dir.clone(), read_text: false, list_entries: true },
        );
        assert(probes_of(raw@) =~= disable_reads(name@, is_file, directories.instances_dir@));
    }
    still_wanted(raw, snapshot)
}

/// A plain look at each entry that `world` lists in the directory `dir`.
pub open spec fn listed(world: World, dir: Seq<char>) -> Seq<ProbeModel> {
    match facts_at(world, dir).entries {
        Some(entries) => Seq::new(entries.len(), |i: int| plain(entries[i])),
        None => Seq::empty(),
    }
}

/// The root directory of each instance that `world` lists in the instances
/// directory.
pub open spec fn listed_roots(world: World, instances_dir: Seq<char>) -> Seq<Seq<char>> {
    match facts_at(world, instances_dir).entries {
        Some(entries) => Seq::new(
            entries.len(),
            |i: int| resolve(entries[i], crate::latest::root_name()),
        ),
        None => Seq::empty(),
    }
}

/// A look, with its text, at each listed instance's copy of the options
/// file, where the options file is a configured file; nothing otherwise.
pub open spec fn options_reads(world: World, files: Seq<Seq<char>>, instances_dir: Seq<char>) -> Seq<
    ProbeModel,
> {
    if files.contains(options_name()) {
        let roots = listed_roots(world, instances_dir);
        Seq::new(roots.len(), |i: int| with_text(resolve(roots[i], options_name())))
    } else {
        Seq::empty()
    }
}

/// A plain look at the place of each configured file but the options file
/// on each listed instance.
pub open spec fn copy_reads(roots: Seq<Seq<char>>, files: Seq<Seq<char>>) -> Seq<ProbeModel>
    decreases files.len(),
{
    if files.len() == 0 {
        Seq::empty()
    } else if files.last() == options_name() {
        copy_reads(roots, files.drop_last())
    } else {
        copy_reads(roots, files.drop_last()) + name_places(roots, files.last())
    }
}

/// Every path that the plan for an instance is made from: the listings of
/// the instance root and of the instances directory; the baseline of the
/// options merge; each entry of the instance root; each listed instance's
/// copy of the options file and of the other configured files; and the
/// place of each configured folder in the instance.
pub open spec fn apply_reads(
    world: World,
    files: Seq<Seq<char>>,
    folders: Seq<Seq<char>>,
    instances_dir: Seq<char>,
    synced_dir: Seq<char>,
    root: Seq<char>,
) -> Seq<ProbeModel> {
    seq![
        with_entries(root),
        with_entries(instances_dir),
        with_text(resolve(synced_dir, fallback_name())),
    ] + listed(world, root) + options_reads(world, files, instances_dir) + copy_reads(
        listed_roots(world, instances_dir),
        files,
    ) + names_places(seq![root], folders)
}

/// What `apply_to_instance` reads and `snapshot` does not hold yet. Where
/// the snapshot lacks a listing, the entries of that listing are wanted in
/// a later round.
pub fn apply_probes(
    sync_targets: &SyncTargets,
    directories: &LauncherDirectories,
    dot_minecraft: &str,
    snapshot: &Snapshot,
) -> (wanted: Vec<Probe>)
    ensures
        probes_of(wanted@) == outstanding(
            snapshot@,
            apply_reads(
                snapshot@,
                sync_targets.files@,
                sync_targets.folders@,
                directories.instances_dir@,
                directories.synced_dir@,
                dot_minecraft@,
            ),
        ),
{
    let ghost world = snapshot@;
    let ghost fs = sync_targets.files@;
    let ghost idir = directories.instances_dir@;
    let mut raw: Vec<Probe> = Vec::new();
    raw.push(Probe { path: dot_minecraft.to_owned(), read_text: false, list_entries: true });
    raw.push(
        Probe { path: directories.instances_dir.clone(), read_text: false, list_entries: true },
    );
    raw.push(
        Probe {
            path: join(directories.synced_dir.as_str(), "fallback_options.txt"),
            read_text: true,
            list_entries: false,
        },
    );
    let ghost head = probes_of(raw@);
    assert(head =~= seq![
        with_entries(dot_minecraft@),
        with_entries(idir),
        with_text(resolve(directories.synced_dir@, fallback_name())),
    ]);

    // The entries of the instance root.
    if let Some(entries) = snapshot.entries(dot_minecraft) {
        let ghost all = listed(world, dot_minecraft@);
        let mut i: usize = 0;
        assert(probes_of(raw@) =~= head + all.take(0));
        while i < entries.len()
            invariant
                i <= entries.len(),
                all.len() == entries.len(),
                forall|k: int| 0 <= k < all.len() ==> #[trigger] all[k] == plain(entries@[k]@),
                probes_of(raw@) == head + all.take(i as int),
            decreases entries.len() - i,
        {
            let ghost so_far = probes_of(raw@);
            raw.push(Probe { path: entries[i].clone(), read_text: false, list_entries: false });
            assert(probes_of(raw@) =~= so_far.push(all[i as int]));
            assert(all.take(i + 1) =~= all.take(i as int).push(all[i as int]));
            i += 1;
        }
        assert(all.take(entries.len() as int) =~= all);
    } else {
        assert(probes_of(raw@) =~= head + listed(world, dot_minecraft@));
    }
    let ghost second = probes_of(raw@);
    assert(second == head + listed(world, dot_minecraft@));

    // The root of each listed instance.
    let mut roots: Vec<String> = Vec::new();
    if let Some(entries) = snapshot.entries(directories.instances_dir.as_str()) {
        let mut i: usize = 0;
        while i < entries.len()
            invariant
                i <= entries.len(),
                roots@.len() == i,
                forall|k: int|
                    0 <= k < i ==> (#[trigger] roots@[k])@ == resolve(
                        entries@[k]@,
                        crate::latest::root_name(),
                    ),
            decreases entries.len() - i,
        {
            roots.push(instance_root(entries[i].as_str()));
            i += 1;
        }
    }
    assert(texts(roots@) =~= listed_roots(world, idir));
    let ghost rs = texts(roots@);

    // Each listed instance's copy of the options file.
    if sync_targets.files.contains("options.txt") {
        let ghost all = options_reads(world, fs, idir);
        let mut i: usize = 0;
        assert(probes_of(raw@) =~= second + all.take(0));
        while i < roots.len()
            invariant
                i <= roots.len(),
                rs == texts(roots@),
                all.len() == roots.len(),
                forall|k: int|
                    0 <= k < all.len() ==> #[trigger] all[k] == with_text(
                        resolve(rs[k], options_name()),
                    ),
                probes_of(raw@) == second + all.take(i as int),
            decreases roots.len() - i,
        {
            let ghost so_far = probes_of(raw@);
            raw.push(
                Probe {
                    path: join(roots[i].as_str(), "options.txt"),
                    read_text: true,
                    list_entries: false,
                },
            );
            assert(probes_of(raw@) =~= so_far.push(all[i as int]));
            assert(all.take(i + 1) =~= all.take(i as int).push(all[i as int]));
            i += 1;
        }
        assert(all.take(roots.len() as int) =~= all);
    } else {
        assert(probes_of(raw@) =~= second + options_reads(world, fs, idir));
    }
    let ghost third = probes_of(raw@);
    assert(third == second + options_reads(world, fs, idir));

    // The place of each other configured file on each listed instance.
    let n_files = sync_targets.files.len();
    let mut j: usize = 0;
    assert(fs.take(0) =~= Seq::<Seq<char>>::empty());
    assert(probes_of(raw@) =~= third + copy_reads(rs, fs.take(0)));
    while j < n_files
        invariant
            j <= n_files == fs.len(),
            fs == sync_targets.files@,
            rs == texts(roots@),
            probes_of(raw@) == third + copy_reads(rs, fs.take(j as int)),
        decreases n_files - j,
    {
        let name = sync_targets.files.get(j);
        let ghost so_far = probes_of(raw@);
        proof {
            let upto = fs.take(j + 1);
            assert(upto.drop_last() =~= fs.take(j as int));
            assert(upto.last() == name@);
        }
        if !same_text(name.as_str(), "options.txt") {
            push_name_places(&mut raw, &roots, name.as_str());
            assert(probes_of(raw@) =~= third + copy_reads(rs, fs.take(j + 1)));
        }
        j += 1;
    }
    assert(fs.take(n_files as int) =~= fs);
    let ghost fourth = probes_of(raw@);

    // The place of each configured folder in the instance.
    let mut own: Vec<String> = Vec::new();
    own.push(dot_minecraft.to_owned());
    assert(texts(own@) =~= seq![dot_minecraft@]);
    let folders = names_of(&sync_targets.folders);
    push_names_places(&mut raw, &own, &folders);
    still_wanted(raw, snapshot)
}

} // verus!
