//! The state behind the page that shows the targets and lets them be
//! toggled.
//!
//! The page itself is drawn elsewhere. Here is what it remembers between
//! requests for the sync state, and what it shows for one target.

use vstd::prelude::*;
use crate::names::NameSet;
use crate::options::{trim, trimmed};
use crate::safe_path::{is_safe, SafePath};
use crate::state::{SyncState, SyncTargetState};
use crate::text::texts;

verus! {

/// What the page shows for one target.
#[derive(Clone, Copy, Debug, PartialEq, Eq, Structural)]
pub struct EntryView {
    /// The box is checked: the target is enabled.
    pub checked: bool,
    /// The box cannot be checked: the target is off and something stands in
    /// its way on some instance.
    pub disabled: bool,
    /// A change of the target is under way; the counts are not shown.
    pub loading: bool,
    /// The number of instances that share the target is shown.
    pub shows_synced: bool,
    /// The number of instances that cannot share the target is shown.
    pub shows_blocked: bool,
    pub synced_count: usize,
    pub cannot_sync_count: usize,
}

/// What is shown for a target whose state, if it has one of the kind asked
/// for, is `state`.
pub open spec fn entry_for(state: Option<SyncTargetState>, is_file: bool, loading: bool) -> EntryView {
    let known = state is Some && state->0.is_file == is_file;
    let synced: usize = if known {
        state->0.sync_count
    } else {
        0
    };
    let cannot: usize = if known {
        state->0.cannot_sync_count
    } else {
        0
    };
    let enabled = known && state->0.enabled;
    EntryView {
        checked: enabled,
        disabled: !enabled && cannot > 0,
        loading,
        shows_synced: !loading && (enabled || synced > 0) && !is_file,
        shows_blocked: !loading && enabled && cannot > 0,
        synced_count: synced,
        cannot_sync_count: cannot,
    }
}

/// The state of `name` in a table, if it has one.
pub open spec fn state_in(table: Map<Seq<char>, SyncTargetState>, name: Seq<char>) -> Option<
    SyncTargetState,
> {
    if table.dom().contains(name) {
        Some(table[name])
    } else {
        None
    }
}

/// The state behind the page.
#[derive(Debug)]
pub struct SyncingPage {
    sync_state: Option<SyncState>,
    pending: NameSet,
    loading: NameSet,
}

impl SyncingPage {
    /// Every target that a request in flight will settle is being changed.
    #[verifier::type_invariant]
    closed spec fn consistent(&self) -> bool {
        self.pending@.to_set().subset_of(self.loading@.to_set())
    }

    /// The targets whose change is under way.
    pub closed spec fn loading(&self) -> Set<Seq<char>> {
        self.loading@.to_set()
    }

    /// The targets that the request in flight will settle; empty where no
    /// request is in flight.
    pub closed spec fn pending(&self) -> Set<Seq<char>> {
        self.pending@.to_set()
    }

    /// The sync state that was last received.
    pub closed spec fn shown(&self) -> Option<SyncState> {
        self.sync_state
    }

    /// A page that has no state yet and no change under way. Its creator
    /// requests the sync state at once.
    pub fn new() -> (page: SyncingPage)
        ensures
            page.shown() is None,
            page.loading() == Set::<Seq<char>>::empty(),
            page.pending() == Set::<Seq<char>>::empty(),
    {
        let page = SyncingPage { sync_state: None, pending: NameSet::new(), loading: NameSet::new() };
        assert(page.loading@.to_set() =~= Set::<Seq<char>>::empty());
        assert(page.pending@.to_set() =~= Set::<Seq<char>>::empty());
        page
    }

    /// The sync state that was last received.
    pub fn sync_state(&self) -> (state: &Option<SyncState>)
        ensures
            *state == self.shown(),
    {
        &self.sync_state
    }

    /// Whether a change of `name` is under way.
    pub fn is_loading(&self, name: &str) -> (yes: bool)
        ensures
            yes == self.loading().contains(name@),
            self.pending().subset_of(self.loading()),
    {
        proof {
            use_type_invariant(self);
        }
        self.loading.contains(name)
    }

    /// Takes in the sync state that a request has brought. The changes which
    /// that request was to settle are settled. If changes came in while it
    /// was in flight, they become the ones to settle and the state is to be
    /// requested again; the result says so.
    pub fn update_sync_state(&mut self, result: SyncState) -> (again: bool)
        ensures
            final(self).shown() == Some(result),
            final(self).loading() == old(self).loading().difference(old(self).pending()),
            final(self).pending() == final(self).loading(),
            again == (final(self).loading() != Set::<Seq<char>>::empty()),
    {
        let loading = self.loading.without(&self.pending);
        let again = !loading.is_empty();
        let pending = loading.duplicate();
        proof {
            if loading@.len() == 0 {
                assert(loading@.to_set() =~= Set::<Seq<char>>::empty());
            } else {
                assert(loading@.to_set().contains(loading@[0]));
            }
        }
        *self = SyncingPage { sync_state: Some(result), pending, loading };
        again
    }

    /// Notes that the user has asked for a change of `name`. Where no
    /// request is in flight, the change becomes the one to settle and the
    /// state is to be requested; the result says so.
    pub fn toggle(&mut self, name: &str) -> (request: bool)
        ensures
            final(self).shown() == old(self).shown(),
            final(self).loading() == old(self).loading().insert(name@),
            request == (old(self).pending() == Set::<Seq<char>>::empty()),
            final(self).pending() == (if request {
                Set::<Seq<char>>::empty().insert(name@)
            } else {
                old(self).pending()
            }),
    {
        proof {
            use_type_invariant(&*self);
        }
        let mut taken = SyncingPage {
            sync_state: None,
            pending: NameSet::new(),
            loading: NameSet::new(),
        };
        std::mem::swap(self, &mut taken);
        let SyncingPage { sync_state, mut pending, mut loading } = taken;
        loading.insert(name);
        let request = pending.is_empty();
        proof {
            if pending@.len() == 0 {
                assert(pending@.to_set() =~= Set::<Seq<char>>::empty());
            } else {
                assert(pending@.to_set().contains(pending@[0]));
            }
        }
        if request {
            pending.insert(name);
        }
        *self = SyncingPage { sync_state, pending, loading };
        request
    }

    /// What the page shows for the target `name` of the kind `is_file`,
    /// given the sync state `sync_state`.
    pub fn create_entry(&self, sync_state: &SyncState, name: &str, is_file: bool) -> (entry:
        EntryView)
        ensures
            entry == entry_for(
                state_in(sync_state.targets.as_map(), name@),
                is_file,
                self.loading().contains(name@),
            ),
    {
        let synced_count;
        let cannot_sync_count;
        let enabled;
        match sync_state.targets.get(name) {
            Some(state) if state.is_file == is_file => {
                synced_count = state.sync_count;
                cannot_sync_count = state.cannot_sync_count;
                enabled = state.enabled;
            },
            _ => {
                synced_count = 0;
                cannot_sync_count = 0;
                enabled = false;
            },
        }
        let disabled = !enabled && cannot_sync_count > 0;
        let is_loading = self.loading.contains(name);
        EntryView {
            checked: enabled,
            disabled,
            loading: is_loading,
            shows_synced: !is_loading && (enabled || synced_count > 0) && !is_file,
            shows_blocked: !is_loading && enabled && cannot_sync_count > 0,
            synced_count,
            cannot_sync_count,
        }
    }
}

/// The name that a typed-in target stands for: the input without the
/// whitespace around it, if that is a safe path.
pub fn custom_target(input: &str) -> (name: Option<String>)
    ensures
        crate::text::opt_text(name) == (if is_safe(trimmed(input@)) {
            Some(trimmed(input@))
        } else {
            None
        }),
{
    let name = trim(input);
    if SafePath::new(name.as_str()).is_some() {
        Some(name)
    } else {
        None
    }
}

/// The targets that the page always lists under a name of their own.
pub open spec fn named_target_names() -> Seq<Seq<char>> {
    seq![
        "options.txt"@,
        "servers.dat"@,
        "command_history.txt"@,
        "hotbar.nbt"@,
        "saves"@,
        "config"@,
        "screenshots"@,
        "shaderpacks"@,
        "flashback"@,
        "Distant_Horizons_server_data"@,
        ".voxy"@,
        "xaero"@,
        ".bobby"@,
        "schematics"@,
    ]
}

/// The targets that the page always lists under a name of their own.
pub fn named_targets() -> (names: Vec<String>)
    ensures
        texts(names@) == named_target_names(),
{
    let mut names: Vec<String> = Vec::new();
    names.push("options.txt".to_owned());
    names.push("servers.dat".to_owned());
    names.push("command_history.txt".to_owned());
    names.push("hotbar.nbt".to_owned());
    names.push("saves".to_owned());
    names.push("config".to_owned());
    names.push("screenshots".to_owned());
    names.push("shaderpacks".to_owned());
    names.push("flashback".to_owned());
    names.push("Distant_Horizons_server_data".to_owned());
    names.push(".voxy".to_owned());
    names.push("xaero".to_owned());
    names.push(".bobby".to_owned());
    names.push("schematics".to_owned());
    assert(texts(names@) =~= named_target_names());
    names
}

/// A target that the page lists among the custom ones.
#[derive(Clone, Debug, PartialEq, Eq)]
pub struct CustomEntry {
    pub name: String,
    pub is_file: bool,
}

/// The contents of a list of custom entries.
pub open spec fn customs_of(list: Seq<CustomEntry>) -> Seq<(Seq<char>, bool)> {
    Seq::new(list.len(), |i: int| (list[i].name@, list[i].is_file))
}

/// Of `names`, in order, those that are enabled in `table` and are not
/// listed under a name of their own, each with its kind.
pub open spec fn customs(names: Seq<Seq<char>>, table: Map<Seq<char>, SyncTargetState>) -> Seq<
    (Seq<char>, bool),
>
    decreases names.len(),
{
    if names.len() == 0 {
        Seq::empty()
    } else {
        let rest = customs(names.drop_last(), table);
        let name = names.last();
        if table.dom().contains(name) && table[name].enabled && !named_target_names().contains(
            name,
        ) {
            rest.push((name, table[name].is_file))
        } else {
            rest
        }
    }
}

/// The targets that the page lists among the custom ones: the enabled
/// targets that are not listed under a name of their own, in the order of
/// their names.
pub fn custom_targets(sync_state: &SyncState) -> (list: Vec<CustomEntry>)
    ensures
        customs_of(list@) == customs(sync_state.targets.names(), sync_state.targets.as_map()),
{
    let named_list = named_targets();
    let named = NameSet::from_list(&named_list);
    let ghost names = sync_state.targets.names();
    let ghost table = sync_state.targets.as_map();
    let n = sync_state.targets.len();
    let mut list: Vec<CustomEntry> = Vec::new();
    let mut i: usize = 0;
    assert(names.take(0) =~= Seq::<Seq<char>>::empty());
    assert(customs_of(list@) =~= customs(names.take(0), table));
    while i < n
        invariant
            i <= n == names.len(),
            names == sync_state.targets.names(),
            table == sync_state.targets.as_map(),
            named@.to_set() == named_target_names().to_set(),
            customs_of(list@) == customs(names.take(i as int), table),
        decreases n - i,
    {
        let name = sync_state.targets.name_at(i);
        let state = sync_state.targets.state_at(i);
        let ghost before = customs_of(list@);
        proof {
            let upto = names.take(i + 1);
            assert(upto.drop_last() =~= names.take(i as int));
            assert(upto.last() == name@);
            assert(named@.contains(name@) == named@.to_set().contains(name@));
            assert(named_target_names().contains(name@) == named_target_names().to_set().contains(
                name@,
            ));
        }
        if state.enabled && !named.contains(name.as_str()) {
            list.push(CustomEntry { name: name.clone(), is_file: state.is_file });
            assert(customs_of(list@) =~= before.push((name@, state.is_file)));
        }
        i += 1;
    }
    assert(names.take(n as int) =~= names);
    list
}

} // verus!
