use instance_sync::config::SyncTargets;
use instance_sync::linking::{is_targeting, link_dir, unlink_dir_if_targeting};
use instance_sync::observe::{Observed, Snapshot};
use instance_sync::plan::Action;
use instance_sync::state::{
    default_folders, get_sync_state, Instance, LauncherDirectories, SyncTargetState,
};

fn dirs() -> LauncherDirectories {
    LauncherDirectories { instances_dir: "/inst".to_string(), synced_dir: "/store".to_string() }
}

fn instance(name: &str, disabled: bool) -> Instance {
    Instance {
        dot_minecraft_path: format!("/inst/{}/.minecraft", name),
        disable_file_syncing: disabled,
    }
}

fn real_dir() -> Observed {
    Observed { present: true, is_dir: true, ..Observed::absent() }
}

fn real_file() -> Observed {
    Observed { present: true, ..Observed::absent() }
}

fn link(target: &str) -> Observed {
    Observed {
        present: true,
        is_dir: true,
        link_target: Some(target.to_string()),
        ..Observed::absent()
    }
}

fn folder_state(enabled: bool, sync: usize, cannot: usize) -> SyncTargetState {
    SyncTargetState { enabled, is_file: false, sync_count: sync, cannot_sync_count: cannot }
}

fn file_state(sync: usize, cannot: usize) -> SyncTargetState {
    SyncTargetState { enabled: true, is_file: true, sync_count: sync, cannot_sync_count: cannot }
}

#[test]
fn a_link_targets_exactly_what_it_points_at() {
    let mut snapshot = Snapshot::new();
    snapshot.record("/i/a/saves".to_string(), link("/store/saves"));
    snapshot.record("/i/b/saves".to_string(), link("/store/saves/"));
    snapshot.record("/i/c/saves".to_string(), real_dir());
    assert!(is_targeting("/store/saves", "/i/a/saves", &snapshot));
    assert!(!is_targeting("/store/saves", "/i/b/saves", &snapshot));
    assert!(!is_targeting("/store/saves", "/i/c/saves", &snapshot));
    assert!(!is_targeting("/store/saves", "/i/missing/saves", &snapshot));
    assert!(!is_targeting("/store/config", "/i/a/saves", &snapshot));
}

#[test]
fn a_dangling_link_still_targets() {
    let mut snapshot = Snapshot::new();
    let dangling =
        Observed { link_target: Some("/store/saves".to_string()), ..Observed::absent() };
    snapshot.record("/i/a/saves".to_string(), dangling);
    assert!(is_targeting("/store/saves", "/i/a/saves", &snapshot));
}

#[test]
fn unlinking_removes_only_a_link_that_targets() {
    let mut snapshot = Snapshot::new();
    snapshot.record("/i/a/saves".to_string(), link("/store/saves"));
    snapshot.record("/i/b/saves".to_string(), link("/elsewhere"));
    snapshot.record("/i/c/saves".to_string(), real_dir());
    assert_eq!(
        unlink_dir_if_targeting("/store/saves", "/i/a/saves", &snapshot),
        Some(Action::RemoveLink { path: "/i/a/saves".to_string() })
    );
    assert_eq!(unlink_dir_if_targeting("/store/saves", "/i/b/saves", &snapshot), None);
    assert_eq!(unlink_dir_if_targeting("/store/saves", "/i/c/saves", &snapshot), None);
    assert_eq!(unlink_dir_if_targeting("/store/saves", "/i/d/saves", &snapshot), None);
}

#[test]
fn link_dir_names_both_ends() {
    assert_eq!(
        link_dir("/store/saves", "/i/a/saves"),
        Action::LinkDir { original: "/store/saves".to_string(), link: "/i/a/saves".to_string() }
    );
}

#[test]
fn a_later_record_replaces_an_earlier_one() {
    let mut snapshot = Snapshot::new();
    snapshot.record("/p".to_string(), real_dir());
    assert!(snapshot.is_dir("/p"));
    snapshot.record("/p".to_string(), real_file());
    assert!(!snapshot.is_dir("/p"));
    assert!(snapshot.is_present("/p"));
    assert!(snapshot.has("/p"));
    assert!(!snapshot.has("/q"));
    assert!(!snapshot.is_present("/q"));
    assert_eq!(snapshot.stamp("/p"), None);
    assert_eq!(snapshot.look("/q"), None);
}

#[test]
fn the_well_known_folders() {
    assert_eq!(
        default_folders(),
        vec![
            "saves",
            "config",
            "screenshots",
            "resourcepacks",
            "shaderpacks",
            "flashback",
            "Distant_Horizons_server_data",
            ".voxy",
            "xaero",
            ".bobby",
            "schematics"
        ]
    );
}

#[test]
fn folder_counts_linked_blocked_and_free() {
    // Five instances take part: two linked, two blocked, one free. One more opted out.
    let instances = vec![
        instance("a", false),
        instance("b", false),
        instance("off", true),
        instance("c", false),
        instance("d", false),
        instance("e", false),
    ];
    let mut snapshot = Snapshot::new();
    snapshot.record("/inst/a/.minecraft/saves".to_string(), link("/store/saves"));
    snapshot.record("/inst/b/.minecraft/saves".to_string(), real_dir());
    snapshot.record("/inst/off/.minecraft/saves".to_string(), link("/store/saves"));
    snapshot.record("/inst/c/.minecraft/saves".to_string(), link("/store/saves"));
    snapshot.record("/inst/d/.minecraft/saves".to_string(), link("/somewhere/else"));
    let mut targets = SyncTargets::new();
    targets.folders.insert("saves");
    let state = get_sync_state(&targets, &instances, &dirs(), &snapshot);
    assert_eq!(state.total_count, 5);
    assert_eq!(state.sync_folder, "/store");
    assert_eq!(state.targets.get("saves"), Some(folder_state(true, 2, 2)));
}

#[test]
fn well_known_folders_are_reported_when_not_configured() {
    let instances = vec![instance("a", false), instance("b", false)];
    let mut snapshot = Snapshot::new();
    snapshot.record("/inst/a/.minecraft/config".to_string(), real_dir());
    snapshot.record("/inst/b/.minecraft/screenshots".to_string(), link("/store/screenshots"));
    let mut targets = SyncTargets::new();
    targets.folders.insert("saves");
    let state = get_sync_state(&targets, &instances, &dirs(), &snapshot);
    assert_eq!(state.targets.len(), 11);
    assert_eq!(state.targets.get("saves"), Some(folder_state(true, 0, 0)));
    assert_eq!(state.targets.get("config"), Some(folder_state(false, 0, 1)));
    assert_eq!(state.targets.get("screenshots"), Some(folder_state(false, 1, 0)));
    assert_eq!(state.targets.get("xaero"), Some(folder_state(false, 0, 0)));
    assert_eq!(state.targets.get("mods"), None);
}

#[test]
fn names_come_in_ascending_order() {
    let mut targets = SyncTargets::new();
    targets.folders.insert("zzz");
    targets.files.insert("options.txt");
    targets.files.insert("Aaa");
    let state = get_sync_state(&targets, &Vec::new(), &dirs(), &Snapshot::new());
    let names: Vec<&str> =
        (0..state.targets.len()).map(|i| state.targets.name_at(i).as_str()).collect();
    let mut sorted = names.clone();
    sorted.sort();
    assert_eq!(names, sorted);
    assert_eq!(names.len(), 14);
    assert_eq!(names[0], ".bobby");
    assert_eq!(names[13], "zzz");
    assert_eq!(state.targets.state_at(13), folder_state(true, 0, 0));
    assert_eq!(state.total_count, 0);
}

#[test]
fn an_unsafe_name_cannot_sync_anywhere() {
    let instances = vec![instance("a", false), instance("b", false), instance("c", false)];
    let mut targets = SyncTargets::new();
    targets.folders.insert("../outside");
    targets.files.insert("/etc/passwd");
    let state = get_sync_state(&targets, &instances, &dirs(), &Snapshot::new());
    assert_eq!(state.targets.get("../outside"), Some(folder_state(true, 0, 3)));
    assert_eq!(state.targets.get("/etc/passwd"), Some(file_state(0, 3)));
}

#[test]
fn a_file_is_blocked_by_a_directory_in_its_place() {
    let instances = vec![instance("a", false), instance("b", false), instance("c", false)];
    let mut snapshot = Snapshot::new();
    snapshot.record("/inst/a/.minecraft/servers.dat".to_string(), real_dir());
    snapshot.record("/inst/b/.minecraft/servers.dat".to_string(), real_file());
    let mut targets = SyncTargets::new();
    targets.files.insert("servers.dat");
    let state = get_sync_state(&targets, &instances, &dirs(), &snapshot);
    assert_eq!(state.targets.get("servers.dat"), Some(file_state(2, 1)));
}

#[test]
fn a_name_that_is_file_and_folder_is_reported_as_the_folder() {
    let instances = vec![instance("a", false)];
    let mut targets = SyncTargets::new();
    targets.files.insert("both");
    targets.folders.insert("both");
    let state = get_sync_state(&targets, &instances, &dirs(), &Snapshot::new());
    assert_eq!(state.targets.get("both"), Some(folder_state(true, 0, 0)));
}

#[test]
fn a_name_is_resolved_in_normal_form() {
    let instances = vec![instance("a", false)];
    let mut snapshot = Snapshot::new();
    snapshot.record("/inst/a/.minecraft/config/sub".to_string(), link("/store/config/sub"));
    let mut targets = SyncTargets::new();
    targets.folders.insert("config//./sub/");
    let state = get_sync_state(&targets, &instances, &dirs(), &snapshot);
    assert_eq!(state.targets.get("config//./sub/"), Some(folder_state(true, 1, 0)));
}
