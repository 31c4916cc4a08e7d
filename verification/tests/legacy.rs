use instance_sync::config::{is_default_sync_targets, LegacySyncTarget, SyncTargets};

#[test]
fn legacy_saves_and_config_become_folders() {
    let targets = SyncTargets::from_legacy_bits((1 << 3) | (1 << 4));
    assert_eq!(targets.files.len(), 0);
    assert_eq!(targets.folders.len(), 2);
    assert!(targets.folders.contains("saves"));
    assert!(targets.folders.contains("config"));
    assert_eq!(targets.folders.get(0).as_str(), "config");
    assert_eq!(targets.folders.get(1).as_str(), "saves");
}

#[test]
fn legacy_zero_is_default() {
    let targets = SyncTargets::from_legacy_bits(0);
    assert!(is_default_sync_targets(&targets));
}

#[test]
fn legacy_hotbars_is_a_file_at_bit_thirteen() {
    assert_eq!(LegacySyncTarget::Hotbars.get_new_target(), ("hotbar.nbt", true));
    let targets = SyncTargets::from_legacy_bits(1 << 13);
    assert!(targets.files.contains("hotbar.nbt"));
    assert_eq!(targets.folders.len(), 0);
}

#[test]
fn legacy_every_bit_maps_to_its_target() {
    let expected = [
        ("options.txt", true),
        ("servers.dat", true),
        ("command_history.txt", true),
        ("saves", false),
        ("config", false),
        ("screenshots", false),
        ("resourcepacks", false),
        ("shaderpacks", false),
        ("flashback", false),
        ("Distant_Horizons_server_data", false),
        (".voxy", false),
        ("xaero", false),
        (".bobby", false),
        ("hotbar.nbt", true),
        ("schematics", false),
    ];
    for (bit, (name, is_file)) in expected.iter().enumerate() {
        assert_eq!(
            LegacySyncTarget::from_bit(bit as u8).map(|l| l.get_new_target()),
            Some((*name, *is_file))
        );
        let targets = SyncTargets::from_legacy_bits(1 << bit);
        assert_eq!(targets.files.len() + targets.folders.len(), 1);
        if *is_file {
            assert!(targets.files.contains(name));
        } else {
            assert!(targets.folders.contains(name));
        }
    }
}

#[test]
fn legacy_all_bits_give_four_files_and_eleven_folders() {
    let targets = SyncTargets::from_legacy_bits(0x7fff);
    assert_eq!(targets.files.len(), 4);
    assert_eq!(targets.folders.len(), 11);
}

#[test]
fn legacy_no_target_stood_at_bit_fifteen() {
    assert_eq!(LegacySyncTarget::from_bit(15), None);
    assert_eq!(LegacySyncTarget::from_bit(255), None);
    assert_eq!(LegacySyncTarget::from_bit(14), Some(LegacySyncTarget::Litematic));
}

#[test]
fn legacy_unknown_bit_is_ignored() {
    let targets = SyncTargets::from_legacy_bits(1 << 15);
    assert!(is_default_sync_targets(&targets));
    let targets = SyncTargets::from_legacy_bits((1 << 15) | 1);
    assert_eq!(targets.files.len(), 1);
    assert!(targets.files.contains("options.txt"));
}
