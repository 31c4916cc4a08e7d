use instance_sync::config::SyncTargets;
use instance_sync::observe::{Observed, Snapshot};
use instance_sync::probes::{
    apply_probes, disable_probes, enable_probes, still_wanted, sync_state_probes, Probe,
};
use instance_sync::state::{Instance, LauncherDirectories};

fn dirs() -> LauncherDirectories {
    LauncherDirectories { instances_dir: "/inst".to_string(), synced_dir: "/store".to_string() }
}

fn instance(name: &str, disabled: bool) -> Instance {
    Instance {
        dot_minecraft_path: format!("/inst/{}/.minecraft", name),
        disable_file_syncing: disabled,
    }
}

fn plain(path: &str) -> Probe {
    Probe { path: path.to_string(), read_text: false, list_entries: false }
}

fn text(path: &str) -> Probe {
    Probe { path: path.to_string(), read_text: true, list_entries: false }
}

fn entries(path: &str) -> Probe {
    Probe { path: path.to_string(), read_text: false, list_entries: true }
}

fn listing(entries: &[&str]) -> Observed {
    Observed {
        present: true,
        is_dir: true,
        entries: Some(entries.iter().map(|n| n.to_string()).collect()),
        ..Observed::absent()
    }
}

#[test]
fn a_path_is_wanted_once_with_all_that_is_read_there() {
    let raw = vec![plain("/a"), text("/b"), entries("/a"), plain("/b"), plain("/c"), text("/a")];
    let wanted = still_wanted(raw, &Snapshot::new());
    assert_eq!(
        wanted,
        vec![
            Probe { path: "/a".to_string(), read_text: true, list_entries: true },
            text("/b"),
            plain("/c"),
        ]
    );
}

#[test]
fn a_path_that_was_seen_is_not_wanted() {
    let mut snapshot = Snapshot::new();
    snapshot.record("/b".to_string(), Observed::absent());
    let wanted = still_wanted(vec![plain("/a"), plain("/b"), plain("/c")], &snapshot);
    assert_eq!(wanted, vec![plain("/a"), plain("/c")]);
}

#[test]
fn the_state_reads_every_folder_on_every_instance_that_takes_part() {
    let instances = vec![instance("a", false), instance("off", true)];
    let mut targets = SyncTargets::new();
    targets.files.insert("servers.dat");
    targets.folders.insert("saves");
    targets.folders.insert("../bad");
    let wanted = sync_state_probes(&targets, &instances, &Snapshot::new());
    let paths: Vec<&str> = wanted.iter().map(|p| p.path.as_str()).collect();
    assert_eq!(paths.len(), 12);
    assert_eq!(paths[0], "/inst/a/.minecraft/servers.dat");
    assert_eq!(paths[1], "/inst/a/.minecraft/saves");
    assert_eq!(paths[2], "/inst/a/.minecraft/config");
    assert!(wanted.iter().all(|p| !p.read_text && !p.list_entries));
    assert!(paths.iter().all(|p| p.starts_with("/inst/a/.minecraft/")));
}

#[test]
fn enabling_reads_the_place_on_each_instance() {
    let instances = vec![instance("a", false), instance("b", false)];
    assert_eq!(
        enable_probes("saves", false, &instances, &Snapshot::new()),
        vec![plain("/inst/a/.minecraft/saves"), plain("/inst/b/.minecraft/saves")]
    );
    assert_eq!(enable_probes("saves", true, &instances, &Snapshot::new()), Vec::new());
    assert_eq!(enable_probes("..", false, &instances, &Snapshot::new()), Vec::new());
}

#[test]
fn disabling_reads_the_listing() {
    assert_eq!(disable_probes("saves", false, &dirs(), &Snapshot::new()), vec![entries("/inst")]);
    assert_eq!(disable_probes("saves", true, &dirs(), &Snapshot::new()), Vec::new());
    assert_eq!(disable_probes("/saves", false, &dirs(), &Snapshot::new()), Vec::new());
}

#[test]
fn applying_asks_in_rounds() {
    let mut targets = SyncTargets::new();
    targets.files.insert("options.txt");
    targets.files.insert("servers.dat");
    targets.folders.insert("saves");
    let root = "/inst/me/.minecraft";
    let mut snapshot = Snapshot::new();
    let first = apply_probes(&targets, &dirs(), root, &snapshot);
    assert_eq!(
        first,
        vec![
            entries(root),
            entries("/inst"),
            text("/store/fallback_options.txt"),
            plain("/inst/me/.minecraft/saves"),
        ]
    );
    snapshot.record(root.to_string(), listing(&["/inst/me/.minecraft/saves"]));
    snapshot.record("/inst".to_string(), listing(&["/inst/me", "/inst/you"]));
    snapshot.record("/store/fallback_options.txt".to_string(), Observed::absent());
    snapshot.record("/inst/me/.minecraft/saves".to_string(), Observed::absent());
    let second = apply_probes(&targets, &dirs(), root, &snapshot);
    assert_eq!(
        second,
        vec![
            text("/inst/me/.minecraft/options.txt"),
            text("/inst/you/.minecraft/options.txt"),
            plain("/inst/me/.minecraft/servers.dat"),
            plain("/inst/you/.minecraft/servers.dat"),
        ]
    );
    for probe in second {
        snapshot.record(probe.path, Observed::absent());
    }
    assert_eq!(apply_probes(&targets, &dirs(), root, &snapshot), Vec::new());
}
