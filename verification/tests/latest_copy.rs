use instance_sync::latest::{find_latest, instance_root};
use instance_sync::observe::{Observed, Snapshot};
use instance_sync::safe_path::SafePath;
use instance_sync::state::LauncherDirectories;

fn dirs() -> LauncherDirectories {
    LauncherDirectories { instances_dir: "/inst".to_string(), synced_dir: "/store".to_string() }
}

fn listing(names: &[&str]) -> Observed {
    Observed {
        present: true,
        is_dir: true,
        entries: Some(names.iter().map(|n| format!("/inst/{}", n)).collect()),
        ..Observed::absent()
    }
}

fn file_at(stamp: u128) -> Observed {
    Observed { present: true, stamp: Some(stamp), ..Observed::absent() }
}

#[test]
fn the_instance_root_is_below_the_instance_directory() {
    assert_eq!(instance_root("/inst/a"), "/inst/a/.minecraft");
}

#[test]
fn the_latest_copy_wins() {
    let mut snapshot = Snapshot::new();
    snapshot.record("/inst".to_string(), listing(&["a", "b", "c"]));
    snapshot.record("/inst/a/.minecraft/servers.dat".to_string(), file_at(10));
    snapshot.record("/inst/b/.minecraft/servers.dat".to_string(), file_at(30));
    snapshot.record("/inst/c/.minecraft/servers.dat".to_string(), file_at(20));
    let name = SafePath::new("servers.dat").unwrap();
    assert_eq!(
        find_latest(&name, &dirs(), &snapshot),
        Some("/inst/b/.minecraft/servers.dat".to_string())
    );
}

#[test]
fn of_equal_copies_the_first_scanned_wins() {
    let mut snapshot = Snapshot::new();
    snapshot.record("/inst".to_string(), listing(&["z", "a", "m"]));
    snapshot.record("/inst/z/.minecraft/f".to_string(), file_at(5));
    snapshot.record("/inst/a/.minecraft/f".to_string(), file_at(7));
    snapshot.record("/inst/m/.minecraft/f".to_string(), file_at(7));
    let name = SafePath::new("f").unwrap();
    assert_eq!(find_latest(&name, &dirs(), &snapshot), Some("/inst/a/.minecraft/f".to_string()));
}

#[test]
fn a_copy_at_the_epoch_still_counts() {
    let mut snapshot = Snapshot::new();
    snapshot.record("/inst".to_string(), listing(&["a", "b"]));
    snapshot.record("/inst/b/.minecraft/f".to_string(), file_at(0));
    let name = SafePath::new("f").unwrap();
    assert_eq!(find_latest(&name, &dirs(), &snapshot), Some("/inst/b/.minecraft/f".to_string()));
}

#[test]
fn no_copy_gives_none() {
    let mut snapshot = Snapshot::new();
    snapshot.record("/inst".to_string(), listing(&["a", "b"]));
    let name = SafePath::new("f").unwrap();
    assert_eq!(find_latest(&name, &dirs(), &snapshot), None);
}

#[test]
fn an_unreadable_instances_directory_gives_none() {
    let mut snapshot = Snapshot::new();
    snapshot.record("/inst/a/.minecraft/f".to_string(), file_at(3));
    let name = SafePath::new("f").unwrap();
    assert_eq!(find_latest(&name, &dirs(), &snapshot), None);
}
