use instance_sync::bulk::{disable_all, enable_all, DisableError};
use instance_sync::linking::is_targeting;
use instance_sync::observe::{Observed, Snapshot};
use instance_sync::plan::{must_succeed, try_best_effort, Action, Step};
use instance_sync::state::{Instance, LauncherDirectories};

fn dirs() -> LauncherDirectories {
    LauncherDirectories { instances_dir: "/inst".to_string(), synced_dir: "/store".to_string() }
}

fn instance(name: &str, disabled: bool) -> Instance {
    Instance {
        dot_minecraft_path: format!("/inst/{}/.minecraft", name),
        disable_file_syncing: disabled,
    }
}

fn real_dir() -> Observed {
    Observed { present: true, is_dir: true, ..Observed::absent() }
}

fn link(target: &str) -> Observed {
    Observed {
        present: true,
        is_dir: true,
        link_target: Some(target.to_string()),
        ..Observed::absent()
    }
}

fn listing(names: &[&str]) -> Observed {
    Observed {
        present: true,
        is_dir: true,
        entries: Some(names.iter().map(|n| format!("/inst/{}", n)).collect()),
        ..Observed::absent()
    }
}

fn must_make_dir(path: &str) -> Step {
    must_succeed(Action::CreateDirAll { path: path.to_string() })
}

fn try_make_dir(path: &str) -> Step {
    try_best_effort(Action::CreateDirAll { path: path.to_string() })
}

fn must_link(original: &str, link: &str) -> Step {
    must_succeed(Action::LinkDir { original: original.to_string(), link: link.to_string() })
}

fn must_unlink(original: &str, link: &str) -> Step {
    must_succeed(Action::UnlinkDirIfTargeting {
        original: original.to_string(),
        link: link.to_string(),
    })
}

#[test]
fn enabling_a_file_needs_no_step() {
    let instances = vec![instance("a", false)];
    assert_eq!(
        enable_all("servers.dat", true, &instances, &dirs(), &Snapshot::new()),
        Some(Vec::new())
    );
    assert_eq!(
        enable_all("../unsafe", true, &instances, &dirs(), &Snapshot::new()),
        Some(Vec::new())
    );
}

#[test]
fn enabling_an_unsafe_folder_is_refused() {
    let instances = vec![instance("a", false)];
    assert_eq!(enable_all("../saves", false, &instances, &dirs(), &Snapshot::new()), None);
    assert_eq!(enable_all("", false, &instances, &dirs(), &Snapshot::new()), None);
}

#[test]
fn enabling_links_every_instance_that_takes_part() {
    let instances = vec![instance("a", false), instance("off", true), instance("b", false)];
    let steps = enable_all("saves", false, &instances, &dirs(), &Snapshot::new());
    assert_eq!(
        steps,
        Some(vec![
            must_make_dir("/store/saves"),
            try_make_dir("/inst/a/.minecraft"),
            must_link("/store/saves", "/inst/a/.minecraft/saves"),
            try_make_dir("/inst/b/.minecraft"),
            must_link("/store/saves", "/inst/b/.minecraft/saves"),
        ])
    );
}

#[test]
fn enabling_skips_instances_that_are_linked_already() {
    let instances = vec![instance("a", false), instance("b", false)];
    let mut snapshot = Snapshot::new();
    snapshot.record("/inst/a/.minecraft/saves".to_string(), link("/store/saves"));
    let steps = enable_all("saves", false, &instances, &dirs(), &snapshot);
    assert_eq!(
        steps,
        Some(vec![
            must_make_dir("/store/saves"),
            try_make_dir("/inst/b/.minecraft"),
            must_link("/store/saves", "/inst/b/.minecraft/saves"),
        ])
    );
}

#[test]
fn enabling_is_refused_when_an_instance_has_content() {
    let instances = vec![instance("a", false), instance("b", false), instance("c", false)];
    let mut snapshot = Snapshot::new();
    snapshot.record("/inst/b/.minecraft/saves".to_string(), real_dir());
    assert_eq!(enable_all("saves", false, &instances, &dirs(), &snapshot), None);
}

#[test]
fn enabling_is_refused_when_an_instance_links_elsewhere() {
    let instances = vec![instance("a", false)];
    let mut snapshot = Snapshot::new();
    snapshot.record("/inst/a/.minecraft/saves".to_string(), link("/other/saves"));
    assert_eq!(enable_all("saves", false, &instances, &dirs(), &snapshot), None);
}

#[test]
fn content_on_an_instance_that_opted_out_does_not_block() {
    let instances = vec![instance("a", false), instance("off", true)];
    let mut snapshot = Snapshot::new();
    snapshot.record("/inst/off/.minecraft/saves".to_string(), real_dir());
    let steps = enable_all("saves", false, &instances, &dirs(), &snapshot).unwrap();
    assert_eq!(steps.len(), 3);
}

#[test]
fn enabling_with_no_instances_only_makes_the_shared_directory() {
    let steps = enable_all("saves", false, &Vec::new(), &dirs(), &Snapshot::new());
    assert_eq!(steps, Some(vec![must_make_dir("/store/saves")]));
}

#[test]
fn disabling_a_file_or_an_unsafe_folder_needs_no_step() {
    assert_eq!(disable_all("servers.dat", true, &dirs(), &Snapshot::new()), Ok(Vec::new()));
    assert_eq!(disable_all("../saves", false, &dirs(), &Snapshot::new()), Ok(Vec::new()));
}

#[test]
fn disabling_fails_when_the_instances_cannot_be_listed() {
    assert_eq!(
        disable_all("saves", false, &dirs(), &Snapshot::new()),
        Err(DisableError::InstancesUnreadable)
    );
}

#[test]
fn disabling_unlinks_every_listed_instance() {
    let mut snapshot = Snapshot::new();
    snapshot.record("/inst".to_string(), listing(&["a", "off", "b"]));
    let steps = disable_all("saves", false, &dirs(), &snapshot);
    assert_eq!(
        steps,
        Ok(vec![
            must_unlink("/store/saves", "/inst/a/.minecraft/saves"),
            must_unlink("/store/saves", "/inst/off/.minecraft/saves"),
            must_unlink("/store/saves", "/inst/b/.minecraft/saves"),
        ])
    );
}

#[test]
fn after_enabling_every_instance_targets_and_after_disabling_none_does() {
    let instances = vec![instance("a", false), instance("b", false)];
    let mut snapshot = Snapshot::new();
    snapshot.record("/inst".to_string(), listing(&["a", "b"]));
    let steps = enable_all("saves", false, &instances, &dirs(), &snapshot).unwrap();
    // Carry the steps out on the snapshot.
    for step in &steps {
        match &step.action {
            Action::CreateDirAll { path } => {
                if !snapshot.is_present(path) {
                    snapshot.record(path.clone(), real_dir());
                }
            }
            Action::LinkDir { original, link: at } => {
                assert!(!snapshot.is_present(at));
                snapshot.record(at.clone(), link(original));
            }
            _ => unreachable!(),
        }
    }
    for inst in &instances {
        let place = format!("{}/saves", inst.dot_minecraft_path);
        assert!(is_targeting("/store/saves", &place, &snapshot));
    }
    assert_eq!(
        enable_all("saves", false, &instances, &dirs(), &snapshot),
        Some(vec![must_make_dir("/store/saves")])
    );
    let steps = disable_all("saves", false, &dirs(), &snapshot).unwrap();
    for step in &steps {
        match &step.action {
            Action::UnlinkDirIfTargeting { original, link: at } => {
                if is_targeting(original, at, &snapshot) {
                    snapshot.record(at.clone(), Observed::absent());
                }
            }
            _ => unreachable!(),
        }
    }
    for inst in &instances {
        let place = format!("{}/saves", inst.dot_minecraft_path);
        assert!(!is_targeting("/store/saves", &place, &snapshot));
    }
    assert!(snapshot.is_dir("/store/saves"));
}
