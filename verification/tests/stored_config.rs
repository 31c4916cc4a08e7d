use instance_sync::config::{
    is_default_sync_targets, try_deserialize_sync_targets, BackendConfig, StoredTargets,
    SyncTargets,
};

#[test]
fn a_number_is_read_as_the_older_encoding() {
    let targets = try_deserialize_sync_targets(&StoredTargets::Number(Some(0b11000)));
    assert_eq!(targets.files.len(), 0);
    assert_eq!(targets.folders.len(), 2);
    assert!(targets.folders.contains("saves"));
    assert!(targets.folders.contains("config"));
}

#[test]
fn a_number_out_of_range_gives_no_targets() {
    let targets = try_deserialize_sync_targets(&StoredTargets::Number(None));
    assert!(is_default_sync_targets(&targets));
}

#[test]
fn lists_are_taken_as_they_are() {
    let stored = StoredTargets::Lists(Some((
        vec!["options.txt".to_string(), "../evil".to_string()],
        vec!["saves".to_string(), "saves".to_string()],
    )));
    let targets = try_deserialize_sync_targets(&stored);
    assert_eq!(targets.files.len(), 2);
    assert!(targets.files.contains("../evil"));
    assert_eq!(targets.folders.len(), 1);
}

#[test]
fn a_value_of_the_wrong_shape_gives_no_targets() {
    let targets = try_deserialize_sync_targets(&StoredTargets::Lists(None));
    assert!(is_default_sync_targets(&targets));
}

#[test]
fn the_default_configuration_has_no_targets() {
    let config = BackendConfig::default();
    assert!(is_default_sync_targets(&config.sync_targets));
    assert!(!config.dont_open_game_output_when_launching);
}

#[test]
fn targets_with_an_entry_are_not_default() {
    let mut targets = SyncTargets::new();
    assert!(is_default_sync_targets(&targets));
    targets.files.insert("servers.dat");
    assert!(!is_default_sync_targets(&targets));
    let copy = targets.duplicate();
    assert!(copy.files.contains("servers.dat"));
    assert_eq!(copy.folders.len(), 0);
}
