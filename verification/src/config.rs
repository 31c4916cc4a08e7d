//! The configured sync targets, and their older encoding as a bit set.

use vstd::prelude::*;
use crate::names::NameSet;
use crate::text::texts;

verus! {

/// The files and folders that are shared between instances. An entry is an
/// arbitrary string; whether it is a safe path is decided when it is used.
#[derive(Debug)]
pub struct SyncTargets {
    pub files: NameSet,
    pub folders: NameSet,
}

impl SyncTargets {
    /// No targets.
    pub fn new() -> (targets: SyncTargets)
        ensures
            targets.files@.len() == 0,
            targets.folders@.len() == 0,
    {
        SyncTargets { files: NameSet::new(), folders: NameSet::new() }
    }

    /// A copy of the targets.
    pub fn duplicate(&self) -> (copy: SyncTargets)
        ensures
            copy.files@ == self.files@,
            copy.folders@ == self.folders@,
    {
        SyncTargets { files: self.files.duplicate(), folders: self.folders.duplicate() }
    }

    /// The targets that the older encoding `bits` stands for: each known
    /// target whose bit is set, as a file or a folder of its present name.
    /// Bits that belong to no target are ignored.
    pub fn from_legacy_bits(bits: u16) -> (targets: SyncTargets)
        ensures
            targets.files@.to_set() == legacy_names(bits, true),
            targets.folders@.to_set() == legacy_names(bits, false),
    {
        let mut targets = SyncTargets::new();
        let mut bit: u8 = 0;
        assert(targets.files@.to_set() =~= legacy_names_below(bits, true, 0));
        assert(targets.folders@.to_set() =~= legacy_names_below(bits, false, 0));
        while bit < 15
            invariant
                bit <= 15,
                targets.files@.to_set() == legacy_names_below(bits, true, bit as int),
                targets.folders@.to_set() == legacy_names_below(bits, false, bit as int),
            decreases 15 - bit,
        {
            if (bits >> bit) & 1 == 1 {
                if let Some(legacy) = LegacySyncTarget::from_bit(bit) {
                    let (name, file) = legacy.get_new_target();
                    if file {
                        targets.files.insert(name);
                    } else {
                        targets.folders.insert(name);
                    }
                }
            }
            proof {
                lemma_legacy_step(bits, true, bit as int);
                lemma_legacy_step(bits, false, bit as int);
            }
            bit += 1;
        }
        assert(legacy_names_below(bits, true, 15) =~= legacy_names(bits, true));
        assert(legacy_names_below(bits, false, 15) =~= legacy_names(bits, false));
        targets
    }
}

/// Whether no target is configured.
pub fn is_default_sync_targets(sync_targets: &SyncTargets) -> (is_default: bool)
    ensures
        is_default == (sync_targets.files@.len() == 0 && sync_targets.folders@.len() == 0),
{
    sync_targets.files.is_empty() && sync_targets.folders.is_empty()
}

/// The part of the application's configuration that this library reads.
#[derive(Debug)]
pub struct BackendConfig {
    pub sync_targets: SyncTargets,
    pub dont_open_game_output_when_launching: bool,
}

impl Default for BackendConfig {
    /// No targets, and game output opened on launch.
    fn default() -> (config: BackendConfig)
        ensures
            config.sync_targets.files@.len() == 0,
            config.sync_targets.folders@.len() == 0,
            !config.dont_open_game_output_when_launching,
    {
        BackendConfig {
            sync_targets: SyncTargets::new(),
            dont_open_game_output_when_launching: false,
        }
    }
}

/// The stored form of the sync targets, as it is found in a configuration
/// document.
#[derive(Debug)]
pub enum StoredTargets {
    /// A number: the older encoding. `None` where the number does not fit
    /// the sixteen bits of that encoding.
    Number(Option<u16>),
    /// Anything else: the two lists of names, or `None` where the value does
    /// not have that shape.
    Lists(Option<(Vec<String>, Vec<String>)>),
}

/// The sync targets that a stored value stands for. A number is read as the
/// older encoding; a value of the wrong shape gives no targets.
pub fn try_deserialize_sync_targets(stored: &StoredTargets) -> (targets: SyncTargets)
    ensures
        targets.files@.to_set() == stored_names(*stored, true),
        targets.folders@.to_set() == stored_names(*stored, false),
{
    match stored {
        StoredTargets::Number(Some(bits)) => SyncTargets::from_legacy_bits(*bits),
        StoredTargets::Lists(Some(lists)) => {
            SyncTargets {
                files: NameSet::from_list(&lists.0),
                folders: NameSet::from_list(&lists.1),
            }
        },
        _ => {
            let targets = SyncTargets::new();
            assert(targets.files@.to_set() =~= Set::<Seq<char>>::empty());
            assert(targets.folders@.to_set() =~= Set::<Seq<char>>::empty());
            targets
        },
    }
}

/// The file names (`files` true) or folder names that a stored value holds.
pub open spec fn stored_names(stored: StoredTargets, files: bool) -> Set<Seq<char>> {
    match stored {
        StoredTargets::Number(Some(bits)) => legacy_names(bits, files),
        StoredTargets::Lists(Some(lists)) => if files {
            texts(lists.0@).to_set()
        } else {
            texts(lists.1@).to_set()
        },
        _ => Set::empty(),
    }
}

/// The targets of the older, fixed enumeration.
#[derive(Clone, Copy, Debug, PartialEq, Eq, Structural)]
pub enum LegacySyncTarget {
    Options,
    Servers,
    Commands,
    Hotbars,
    Saves,
    Config,
    Screenshots,
    Resourcepacks,
    Shaderpacks,
    Flashback,
    DistantHorizons,
    Voxy,
    XaerosMinimap,
    Bobby,
    Litematic,
}

impl LegacySyncTarget {
    /// The bit that stood for the target in the older encoding.
    pub open spec fn bit(self) -> int {
        match self {
            LegacySyncTarget::Options => 0,
            LegacySyncTarget::Servers => 1,
            LegacySyncTarget::Commands => 2,
            LegacySyncTarget::Hotbars => 13,
            LegacySyncTarget::Saves => 3,
            LegacySyncTarget::Config => 4,
            LegacySyncTarget::Screenshots => 5,
            LegacySyncTarget::Resourcepacks => 6,
            LegacySyncTarget::Shaderpacks => 7,
            LegacySyncTarget::Flashback => 8,
            LegacySyncTarget::DistantHorizons => 9,
            LegacySyncTarget::Voxy => 10,
            LegacySyncTarget::XaerosMinimap => 11,
            LegacySyncTarget::Bobby => 12,
            LegacySyncTarget::Litematic => 14,
        }
    }

    /// The present name of the target.
    pub open spec fn name(self) -> Seq<char> {
        match self {
            LegacySyncTarget::Options => "options.txt"@,
            LegacySyncTarget::Servers => "servers.dat"@,
            LegacySyncTarget::Commands => "command_history.txt"@,
            LegacySyncTarget::Hotbars => "hotbar.nbt"@,
            LegacySyncTarget::Saves => "saves"@,
            LegacySyncTarget::Config => "config"@,
            LegacySyncTarget::Screenshots => "screenshots"@,
            LegacySyncTarget::Resourcepacks => "resourcepacks"@,
            LegacySyncTarget::Shaderpacks => "shaderpacks"@,
            LegacySyncTarget::Flashback => "flashback"@,
            LegacySyncTarget::DistantHorizons => "Distant_Horizons_server_data"@,
            LegacySyncTarget::Voxy => ".voxy"@,
            LegacySyncTarget::XaerosMinimap => "xaero"@,
            LegacySyncTarget::Bobby => ".bobby"@,
            LegacySyncTarget::Litematic => "schematics"@,
        }
    }

    /// Whether the target is a file; the others are folders.
    pub open spec fn is_file(self) -> bool {
        self.bit() <= 2 || self.bit() == 13
    }

    /// The target that `bit` stood for, if one did.
    pub fn from_bit(bit: u8) -> (legacy: Option<LegacySyncTarget>)
        ensures
            legacy is Some == (bit < 15),
            legacy matches Some(l) ==> l.bit() == bit,
    {
        match bit {
            0 => Some(LegacySyncTarget::Options),
            1 => Some(LegacySyncTarget::Servers),
            2 => Some(LegacySyncTarget::Commands),
            3 => Some(LegacySyncTarget::Saves),
            4 => Some(LegacySyncTarget::Config),
            5 => Some(LegacySyncTarget::Screenshots),
            6 => Some(LegacySyncTarget::Resourcepacks),
            7 => Some(LegacySyncTarget::Shaderpacks),
            8 => Some(LegacySyncTarget::Flashback),
            9 => Some(LegacySyncTarget::DistantHorizons),
            10 => Some(LegacySyncTarget::Voxy),
            11 => Some(LegacySyncTarget::XaerosMinimap),
            12 => Some(LegacySyncTarget::Bobby),
            13 => Some(LegacySyncTarget::Hotbars),
            14 => Some(LegacySyncTarget::Litematic),
            _ => None,
        }
    }

    /// The present name of the target, and whether it is a file.
    pub fn get_new_target(self) -> (target: (&'static str, bool))
        ensures
            target.0@ == self.name(),
            target.1 == self.is_file(),
    {
        match self {
            LegacySyncTarget::Options => ("options.txt", true),
            LegacySyncTarget::Servers => ("servers.dat", true),
            LegacySyncTarget::Commands => ("command_history.txt", true),
            LegacySyncTarget::Hotbars => ("hotbar.nbt", true),
            LegacySyncTarget::Saves => ("saves", false),
            LegacySyncTarget::Config => ("config", false),
            LegacySyncTarget::Screenshots => ("screenshots", false),
            LegacySyncTarget::Resourcepacks => ("resourcepacks", false),
            LegacySyncTarget::Shaderpacks => ("shaderpacks", false),
            LegacySyncTarget::Flashback => ("flashback", false),
            LegacySyncTarget::DistantHorizons => ("Distant_Horizons_server_data", false),
            LegacySyncTarget::Voxy => (".voxy", false),
            LegacySyncTarget::XaerosMinimap => ("xaero", false),
            LegacySyncTarget::Bobby => (".bobby", false),
            LegacySyncTarget::Litematic => ("schematics", false),
        }
    }
}

/// Whether the older encoding `bits` holds `legacy`.
pub open spec fn legacy_holds(bits: u16, legacy: LegacySyncTarget) -> bool {
    (bits >> (legacy.bit() as u16)) & 1 == 1
}

/// The names of the files (`files` true) or folders that `bits` holds.
pub open spec fn legacy_names(bits: u16, files: bool) -> Set<Seq<char>> {
    Set::new(
        |name: Seq<char>|
            exists|legacy: LegacySyncTarget|
                legacy_holds(bits, legacy) && legacy.is_file() == files && #[trigger] legacy.name()
                    == name,
    )
}

/// As `legacy_names`, of the targets whose bit lies below `limit` only.
pub open spec fn legacy_names_below(bits: u16, files: bool, limit: int) -> Set<Seq<char>> {
    Set::new(
        |name: Seq<char>|
            exists|legacy: LegacySyncTarget|
                legacy.bit() < limit && legacy_holds(bits, legacy) && legacy.is_file() == files
                    && #[trigger] legacy.name() == name,
    )
}

/// Raising the limit by one adds the name of the target at that bit, if the
/// encoding holds it and it is of the kind asked for.
proof fn lemma_legacy_step(bits: u16, files: bool, bit: int)
    requires
        0 <= bit < 15,
    ensures
        legacy_names_below(bits, files, bit + 1) == (if (bits >> (bit as u16)) & 1 == 1
            && legacy_at(bit).is_file() == files {
            legacy_names_below(bits, files, bit).insert(legacy_at(bit).name())
        } else {
            legacy_names_below(bits, files, bit)
        }),
        legacy_at(bit).bit() == bit,
{
    let here = legacy_at(bit);
    let wider = legacy_names_below(bits, files, bit + 1);
    let narrow = legacy_names_below(bits, files, bit);
    let added = legacy_holds(bits, here) && here.is_file() == files;
    assert forall|name: Seq<char>| wider.contains(name) == (narrow.contains(name) || (added
        && name == here.name())) by {
        if wider.contains(name) {
            let legacy = choose|legacy: LegacySyncTarget|
                legacy.bit() < bit + 1 && legacy_holds(bits, legacy) && legacy.is_file() == files
                    && #[trigger] legacy.name() == name;
            if legacy.bit() == bit {
                assert(legacy == here);
            } else {
                assert(legacy.bit() < bit);
            }
        }
        if narrow.contains(name) {
            let legacy = choose|legacy: LegacySyncTarget|
                legacy.bit() < bit && legacy_holds(bits, legacy) && legacy.is_file() == files
                    && #[trigger] legacy.name() == name;
            assert(legacy.bit() < bit + 1);
        }
        if added && name == here.name() {
            assert(here.bit() < bit + 1);
        }
    }
    if added {
        assert(wider =~= narrow.insert(here.name()));
    } else {
        assert(wider =~= narrow);
    }
}

/// The target that stood at `bit`.
pub open spec fn legacy_at(bit: int) -> LegacySyncTarget {
    if bit == 0 {
        LegacySyncTarget::Options
    } else if bit == 1 {
        LegacySyncTarget::Servers
    } else if bit == 2 {
        LegacySyncTarget::Commands
    } else if bit == 3 {
        LegacySyncTarget::Saves
    } else if bit == 4 {
        LegacySyncTarget::Config
    } else if bit == 5 {
        LegacySyncTarget::Screenshots
    } else if bit == 6 {
        LegacySyncTarget::Resourcepacks
    } else if bit == 7 {
        LegacySyncTarget::Shaderpacks
    } else if bit == 8 {
        LegacySyncTarget::Flashback
    } else if bit == 9 {
        LegacySyncTarget::DistantHorizons
    } else if bit == 10 {
        LegacySyncTarget::Voxy
    } else if bit == 11 {
        LegacySyncTarget::XaerosMinimap
    } else if bit == 12 {
        LegacySyncTarget::Bobby
    } else if bit == 13 {
        LegacySyncTarget::Hotbars
    } else {
        LegacySyncTarget::Litematic
    }
}

} // verus!
