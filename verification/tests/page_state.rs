use instance_sync::config::SyncTargets;
use instance_sync::observe::{Observed, Snapshot};
use instance_sync::page::{
    custom_target, custom_targets, named_targets, CustomEntry, EntryView, SyncingPage,
};
use instance_sync::state::{get_sync_state, Instance, LauncherDirectories, SyncState};

fn state_with(folders: &[&str], files: &[&str], blocked: &[&str]) -> SyncState {
    let directories = LauncherDirectories {
        instances_dir: "/inst".to_string(),
        synced_dir: "/store".to_string(),
    };
    let instances = vec![
        Instance { dot_minecraft_path: "/inst/a/.minecraft".to_string(), disable_file_syncing: false },
        Instance { dot_minecraft_path: "/inst/b/.minecraft".to_string(), disable_file_syncing: false },
    ];
    let mut targets = SyncTargets::new();
    for name in folders {
        targets.folders.insert(name);
    }
    for name in files {
        targets.files.insert(name);
    }
    let mut snapshot = Snapshot::new();
    for name in blocked {
        snapshot.record(
            format!("/inst/a/.minecraft/{}", name),
            Observed { present: true, is_dir: true, ..Observed::absent() },
        );
    }
    snapshot.record(
        "/inst/b/.minecraft/saves".to_string(),
        Observed {
            present: true,
            is_dir: true,
            link_target: Some("/store/saves".to_string()),
            ..Observed::absent()
        },
    );
    get_sync_state(&targets, &instances, &directories, &snapshot)
}

#[test]
fn a_new_page_has_nothing() {
    let page = SyncingPage::new();
    assert!(page.sync_state().is_none());
    assert!(!page.is_loading("saves"));
}

#[test]
fn the_first_toggle_asks_for_the_state_and_later_ones_wait() {
    let mut page = SyncingPage::new();
    assert!(page.toggle("saves"));
    assert!(!page.toggle("config"));
    assert!(!page.toggle("saves"));
    assert!(page.is_loading("saves"));
    assert!(page.is_loading("config"));
    // The answer settles "saves" only; "config" came in while it was in flight.
    assert!(page.update_sync_state(state_with(&[], &[], &[])));
    assert!(!page.is_loading("saves"));
    assert!(page.is_loading("config"));
    assert!(!page.toggle("xaero"));
    // The second answer settles "config"; "xaero" is still open.
    assert!(page.update_sync_state(state_with(&[], &[], &[])));
    assert!(!page.is_loading("config"));
    assert!(page.is_loading("xaero"));
    assert!(!page.update_sync_state(state_with(&[], &[], &[])));
    assert!(!page.is_loading("xaero"));
    assert!(page.sync_state().is_some());
    assert!(page.toggle("saves"));
}

#[test]
fn an_answer_with_nothing_pending_settles_nothing() {
    let mut page = SyncingPage::new();
    assert!(!page.update_sync_state(state_with(&[], &[], &[])));
    assert!(page.sync_state().is_some());
}

#[test]
fn an_enabled_folder_shows_its_counts() {
    let page = SyncingPage::new();
    let state = state_with(&["saves", "config"], &[], &["config"]);
    assert_eq!(
        page.create_entry(&state, "saves", false),
        EntryView {
            checked: true,
            disabled: false,
            loading: false,
            shows_synced: true,
            shows_blocked: false,
            synced_count: 1,
            cannot_sync_count: 0,
        }
    );
    assert_eq!(
        page.create_entry(&state, "config", false),
        EntryView {
            checked: true,
            disabled: false,
            loading: false,
            shows_synced: true,
            shows_blocked: true,
            synced_count: 0,
            cannot_sync_count: 1,
        }
    );
}

#[test]
fn a_blocked_folder_that_is_off_cannot_be_checked() {
    let page = SyncingPage::new();
    let state = state_with(&[], &[], &["screenshots"]);
    let entry = page.create_entry(&state, "screenshots", false);
    assert!(!entry.checked);
    assert!(entry.disabled);
    assert!(!entry.shows_synced);
    assert!(!entry.shows_blocked);
    assert_eq!(entry.cannot_sync_count, 1);
}

#[test]
fn a_folder_that_is_off_but_linked_shows_how_many_share_it() {
    let page = SyncingPage::new();
    let state = state_with(&[], &[], &[]);
    let entry = page.create_entry(&state, "saves", false);
    assert!(!entry.checked);
    assert!(!entry.disabled);
    assert!(entry.shows_synced);
    assert_eq!(entry.synced_count, 1);
}

#[test]
fn a_state_of_the_other_kind_does_not_count() {
    let page = SyncingPage::new();
    let state = state_with(&["saves"], &["servers.dat"], &[]);
    let unknown = EntryView {
        checked: false,
        disabled: false,
        loading: false,
        shows_synced: false,
        shows_blocked: false,
        synced_count: 0,
        cannot_sync_count: 0,
    };
    assert_eq!(page.create_entry(&state, "saves", true), unknown);
    assert_eq!(page.create_entry(&state, "servers.dat", false), unknown);
    assert_eq!(page.create_entry(&state, "nothing", false), unknown);
    let file = page.create_entry(&state, "servers.dat", true);
    assert!(file.checked);
    assert!(!file.shows_synced);
    assert_eq!(file.synced_count, 2);
}

#[test]
fn a_target_under_change_shows_no_counts() {
    let mut page = SyncingPage::new();
    page.toggle("saves");
    let state = state_with(&["saves"], &[], &[]);
    let entry = page.create_entry(&state, "saves", false);
    assert!(entry.loading);
    assert!(entry.checked);
    assert!(!entry.shows_synced);
    assert!(!entry.shows_blocked);
}

#[test]
fn custom_targets_are_the_enabled_ones_without_a_name_of_their_own() {
    let state = state_with(&["saves", "mods/x", "resourcepacks"], &["options.txt", "my.dat"], &[]);
    assert_eq!(
        custom_targets(&state),
        vec![
            CustomEntry { name: "mods/x".to_string(), is_file: false },
            CustomEntry { name: "my.dat".to_string(), is_file: true },
            CustomEntry { name: "resourcepacks".to_string(), is_file: false },
        ]
    );
    assert_eq!(custom_targets(&state_with(&[], &[], &[])), Vec::new());
    assert_eq!(named_targets().len(), 14);
}

#[test]
fn typed_in_targets_are_trimmed_and_checked() {
    assert_eq!(custom_target("  mods/x \t"), Some("mods/x".to_string()));
    assert_eq!(custom_target("a b"), Some("a b".to_string()));
    assert_eq!(custom_target("   "), None);
    assert_eq!(custom_target(" ../x"), None);
    assert_eq!(custom_target("/abs"), None);
}
