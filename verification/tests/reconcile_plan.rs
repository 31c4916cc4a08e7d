use instance_sync::config::SyncTargets;
use instance_sync::observe::{Observed, Snapshot};
use instance_sync::plan::{must_succeed, try_best_effort, Action, Policy, Step};
use instance_sync::reconcile::{
    apply_to_instance, cleanup_entry, create_combined_options_txt, options_copies, parent,
};
use instance_sync::state::LauncherDirectories;

const ROOT: &str = "/inst/me/.minecraft";

fn dirs() -> LauncherDirectories {
    LauncherDirectories { instances_dir: "/inst".to_string(), synced_dir: "/store".to_string() }
}

fn listing(entries: &[&str]) -> Observed {
    Observed {
        present: true,
        is_dir: true,
        entries: Some(entries.iter().map(|n| n.to_string()).collect()),
        ..Observed::absent()
    }
}

fn real_dir() -> Observed {
    Observed { present: true, is_dir: true, ..Observed::absent() }
}

fn link(target: &str) -> Observed {
    Observed {
        present: true,
        is_dir: true,
        link_target: Some(target.to_string()),
        ..Observed::absent()
    }
}

fn file(stamp: u128, content: Option<&str>) -> Observed {
    Observed {
        present: true,
        stamp: Some(stamp),
        content: content.map(|c| c.to_string()),
        ..Observed::absent()
    }
}

fn make_dir(path: &str) -> Step {
    try_best_effort(Action::CreateDirAll { path: path.to_string() })
}

fn make_link(original: &str, link: &str) -> Step {
    try_best_effort(Action::LinkDir { original: original.to_string(), link: link.to_string() })
}

fn remove(path: &str) -> Step {
    try_best_effort(Action::RemoveLink { path: path.to_string() })
}

fn write(path: &str, content: &str) -> Step {
    try_best_effort(Action::WriteFile { path: path.to_string(), content: content.to_string() })
}

fn copy(from: &str, to: &str) -> Step {
    try_best_effort(Action::CopyFile { from: from.to_string(), to: to.to_string() })
}

#[test]
fn the_two_policies() {
    let action = Action::RemoveLink { path: "/p".to_string() };
    assert_eq!(try_best_effort(action.clone()).policy, Policy::BestEffort);
    assert_eq!(must_succeed(action.clone()).policy, Policy::MustSucceed);
    assert_eq!(must_succeed(action.clone()).action, action);
}

#[test]
fn parent_is_what_stands_before_the_last_slash() {
    assert_eq!(parent("/a/b/c"), Some("/a/b".to_string()));
    assert_eq!(parent("a/b"), Some("a".to_string()));
    assert_eq!(parent("/a"), Some("".to_string()));
    assert_eq!(parent("a"), None);
    assert_eq!(parent(""), None);
}

#[test]
fn with_no_targets_only_the_root_is_made() {
    let steps = apply_to_instance(&SyncTargets::new(), &dirs(), ROOT, &Snapshot::new());
    assert_eq!(steps, vec![make_dir(ROOT)]);
}

#[test]
fn a_free_folder_is_linked() {
    let mut targets = SyncTargets::new();
    targets.folders.insert("saves");
    targets.folders.insert("config/sub");
    let steps = apply_to_instance(&targets, &dirs(), ROOT, &Snapshot::new());
    assert_eq!(
        steps,
        vec![
            make_dir(ROOT),
            make_dir("/store/config/sub"),
            make_dir("/inst/me/.minecraft/config"),
            make_link("/store/config/sub", "/inst/me/.minecraft/config/sub"),
            make_dir("/store/saves"),
            make_dir("/inst/me/.minecraft"),
            make_link("/store/saves", "/inst/me/.minecraft/saves"),
        ]
    );
}

#[test]
fn a_folder_with_content_is_left_alone() {
    let mut targets = SyncTargets::new();
    targets.folders.insert("saves");
    let mut snapshot = Snapshot::new();
    snapshot.record(ROOT.to_string(), listing(&["/inst/me/.minecraft/saves"]));
    snapshot.record("/inst/me/.minecraft/saves".to_string(), real_dir());
    let steps = apply_to_instance(&targets, &dirs(), ROOT, &snapshot);
    assert_eq!(steps, vec![make_dir(ROOT)]);
}

#[test]
fn a_folder_that_is_linked_already_is_left_alone() {
    let mut targets = SyncTargets::new();
    targets.folders.insert("saves");
    let mut snapshot = Snapshot::new();
    snapshot.record(ROOT.to_string(), listing(&["/inst/me/.minecraft/saves"]));
    snapshot.record("/inst/me/.minecraft/saves".to_string(), link("/store/saves"));
    let steps = apply_to_instance(&targets, &dirs(), ROOT, &snapshot);
    assert_eq!(steps, vec![make_dir(ROOT)]);
}

#[test]
fn an_unsafe_target_is_skipped() {
    let mut targets = SyncTargets::new();
    targets.folders.insert("../escape");
    targets.folders.insert("/abs");
    targets.files.insert("..\\x");
    let steps = apply_to_instance(&targets, &dirs(), ROOT, &Snapshot::new());
    assert_eq!(steps, vec![make_dir(ROOT)]);
}

#[test]
fn links_of_disabled_folders_are_removed() {
    let mut targets = SyncTargets::new();
    targets.folders.insert("saves");
    let mut snapshot = Snapshot::new();
    snapshot.record(
        ROOT.to_string(),
        listing(&[
            "/inst/me/.minecraft/saves",
            "/inst/me/.minecraft/config",
            "/inst/me/.minecraft/mods",
            "/inst/me/.minecraft/shortcut",
            "/inst/me/.minecraft/screenshots",
            "/inst/me/.minecraft/file.txt",
        ]),
    );
    snapshot.record("/inst/me/.minecraft/saves".to_string(), link("/store/saves"));
    snapshot.record("/inst/me/.minecraft/config".to_string(), link("/store/config"));
    snapshot.record("/inst/me/.minecraft/mods".to_string(), real_dir());
    snapshot.record("/inst/me/.minecraft/shortcut".to_string(), link("/home/me/elsewhere"));
    snapshot.record("/inst/me/.minecraft/screenshots".to_string(), link("/storehouse/x"));
    let steps = apply_to_instance(&targets, &dirs(), ROOT, &snapshot);
    assert_eq!(steps, vec![make_dir(ROOT), remove("/inst/me/.minecraft/config")]);
}

#[test]
fn cleanup_of_one_entry() {
    let mut targets = SyncTargets::new();
    targets.folders.insert("saves");
    let mut snapshot = Snapshot::new();
    snapshot.record("/r/saves".to_string(), link("/store/saves"));
    snapshot.record("/r/old".to_string(), link("/store/old"));
    snapshot.record("/r/real".to_string(), real_dir());
    assert_eq!(cleanup_entry(&targets, &dirs(), "/r/saves", Some("saves"), &snapshot), None);
    assert_eq!(
        cleanup_entry(&targets, &dirs(), "/r/old", Some("old"), &snapshot),
        Some(remove("/r/old"))
    );
    assert_eq!(cleanup_entry(&targets, &dirs(), "/r/old", None, &snapshot), None);
    assert_eq!(cleanup_entry(&targets, &dirs(), "/r/real", Some("real"), &snapshot), None);
    assert_eq!(cleanup_entry(&targets, &dirs(), "/r/unseen", Some("unseen"), &snapshot), None);
}

#[test]
fn a_file_is_copied_from_its_latest_copy() {
    let mut targets = SyncTargets::new();
    targets.files.insert("data/servers.dat");
    let mut snapshot = Snapshot::new();
    snapshot.record("/inst".to_string(), listing(&["/inst/me", "/inst/other"]));
    snapshot.record("/inst/me/.minecraft/data/servers.dat".to_string(), file(10, None));
    snapshot.record("/inst/other/.minecraft/data/servers.dat".to_string(), file(20, None));
    let steps = apply_to_instance(&targets, &dirs(), ROOT, &snapshot);
    assert_eq!(
        steps,
        vec![
            make_dir(ROOT),
            make_dir("/inst/me/.minecraft/data"),
            copy(
                "/inst/other/.minecraft/data/servers.dat",
                "/inst/me/.minecraft/data/servers.dat"
            ),
        ]
    );
}

#[test]
fn a_file_whose_latest_copy_is_its_own_is_not_copied() {
    let mut targets = SyncTargets::new();
    targets.files.insert("servers.dat");
    let mut snapshot = Snapshot::new();
    snapshot.record("/inst".to_string(), listing(&["/inst/me", "/inst/other"]));
    snapshot.record("/inst/me/.minecraft/servers.dat".to_string(), file(20, None));
    snapshot.record("/inst/other/.minecraft/servers.dat".to_string(), file(20, None));
    let steps = apply_to_instance(&targets, &dirs(), ROOT, &snapshot);
    assert_eq!(steps, vec![make_dir(ROOT)]);
}

#[test]
fn a_file_that_no_instance_has_is_not_copied() {
    let mut targets = SyncTargets::new();
    targets.files.insert("servers.dat");
    let mut snapshot = Snapshot::new();
    snapshot.record("/inst".to_string(), listing(&["/inst/me", "/inst/other"]));
    let steps = apply_to_instance(&targets, &dirs(), ROOT, &snapshot);
    assert_eq!(steps, vec![make_dir(ROOT)]);
}

fn options_world() -> Snapshot {
    let mut snapshot = Snapshot::new();
    snapshot.record("/inst".to_string(), listing(&["/inst/old", "/inst/me", "/inst/mid"]));
    snapshot.record("/store/fallback_options.txt".to_string(), file(1, Some("base:0\na:0")));
    snapshot.record("/inst/old/.minecraft/options.txt".to_string(), file(10, Some("a:1")));
    snapshot.record("/inst/mid/.minecraft/options.txt".to_string(), file(20, Some("a:2\nb:1")));
    snapshot.record(
        "/inst/me/.minecraft/options.txt".to_string(),
        file(30, Some("a:3\nresourcePacks:x")),
    );
    snapshot
}

#[test]
fn the_options_file_is_merged_and_written_twice() {
    let mut targets = SyncTargets::new();
    targets.files.insert("options.txt");
    let steps = apply_to_instance(&targets, &dirs(), ROOT, &options_world());
    let merged = "base:0\na:3\nb:1\nresourcePacks:x\n";
    assert_eq!(
        steps,
        vec![
            make_dir(ROOT),
            write("/store/fallback_options.txt", merged),
            write("/inst/me/.minecraft/options.txt", merged),
        ]
    );
}

#[test]
fn the_combined_text_drops_foreign_resource_packs() {
    let text = create_combined_options_txt(
        "/store/fallback_options.txt",
        "/inst/mid/.minecraft/options.txt",
        &dirs(),
        &options_world(),
    );
    assert_eq!(text, "base:0\na:3\nb:1\n");
}

#[test]
fn the_copies_follow_the_listing() {
    let copies = options_copies(&dirs(), &options_world()).unwrap();
    let seen: Vec<(&str, u128)> = copies.iter().map(|c| (c.path.as_str(), c.stamp)).collect();
    assert_eq!(
        seen,
        vec![
            ("/inst/old/.minecraft/options.txt", 10),
            ("/inst/me/.minecraft/options.txt", 30),
            ("/inst/mid/.minecraft/options.txt", 20),
        ]
    );
    assert!(options_copies(&dirs(), &Snapshot::new()).is_none());
}

#[test]
fn merging_again_after_writing_gives_the_same_text() {
    let mut snapshot = options_world();
    let first = create_combined_options_txt(
        "/store/fallback_options.txt",
        "/inst/me/.minecraft/options.txt",
        &dirs(),
        &snapshot,
    );
    snapshot.record("/store/fallback_options.txt".to_string(), file(40, Some(&first)));
    snapshot.record("/inst/me/.minecraft/options.txt".to_string(), file(40, Some(&first)));
    let second = create_combined_options_txt(
        "/store/fallback_options.txt",
        "/inst/me/.minecraft/options.txt",
        &dirs(),
        &snapshot,
    );
    assert_eq!(first, second);
}

#[test]
fn applying_twice_plans_nothing_new_for_folders_and_links() {
    let mut targets = SyncTargets::new();
    targets.folders.insert("saves");
    let mut snapshot = Snapshot::new();
    snapshot.record(
        ROOT.to_string(),
        listing(&["/inst/me/.minecraft/config", "/inst/me/.minecraft/mods"]),
    );
    snapshot.record("/inst/me/.minecraft/config".to_string(), link("/store/config"));
    snapshot.record("/inst/me/.minecraft/mods".to_string(), real_dir());
    let first = apply_to_instance(&targets, &dirs(), ROOT, &snapshot);
    assert_eq!(
        first,
        vec![
            make_dir(ROOT),
            remove("/inst/me/.minecraft/config"),
            make_dir("/store/saves"),
            make_dir("/inst/me/.minecraft"),
            make_link("/store/saves", "/inst/me/.minecraft/saves"),
        ]
    );
    // The world after the steps have been carried out.
    snapshot.record(
        ROOT.to_string(),
        listing(&["/inst/me/.minecraft/mods", "/inst/me/.minecraft/saves"]),
    );
    snapshot.record("/inst/me/.minecraft/config".to_string(), Observed::absent());
    snapshot.record("/store/saves".to_string(), real_dir());
    snapshot.record("/inst/me/.minecraft/saves".to_string(), link("/store/saves"));
    let second = apply_to_instance(&targets, &dirs(), ROOT, &snapshot);
    assert_eq!(second, vec![make_dir(ROOT)]);
}
