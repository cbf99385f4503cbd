//! Looking at the processes on macOS: which are shown, under what name, and who is
//! ducked.

use std::collections::HashMap;
use vstd::prelude::*;

use crate::duck_detect::{duck_volume, ducked_volume, PersistedDuckState};
use crate::gain::AppGainState;
use crate::hidden::{hidden_by_bundle, is_hidden_system_process_cached};
use crate::macos::{
    add_slot_states, ids_for, ids_of, info_in, session_id_for_pid, slot_states,
    tap_session_id, AppInfoCacheEntry, AppInfoView, AudioProcessInfo, MacosMixerBackend, MacosView,
};
use crate::name_map::{name_set, texts, NameMap};
use crate::order::{by_name_then_id, sort_sessions, sorted};
use crate::seqs::{
    lemma_filter_none, lemma_filter_take, lemma_map_values_insert, lemma_map_values_restrict,
    lemma_push_members,
};
use crate::session::{
    copy_icon, copy_text, icon_is_new, icon_kept, keep_icon, opt_bytes, opt_text, session_views,
    AppSession, SessionView, SettingsView,
};
use crate::text::{signed_decimal, with_signed};

verus! {

broadcast use vstd::std_specs::hash::group_hash_axioms;

/// Being another process.
pub open spec fn other_process(own_pid: i32) -> spec_fn(AudioProcessInfo) -> bool {
    |p: AudioProcessInfo| p.pid != own_pid
}

/// The processes other than this program itself.
pub fn without_own(processes: &Vec<AudioProcessInfo>, own_pid: i32) -> (others: Vec<
    AudioProcessInfo,
>)
    ensures
        others@ == processes@.filter(other_process(own_pid)),
{
    let ghost p = other_process(own_pid);
    let mut others: Vec<AudioProcessInfo> = Vec::new();
    let mut i: usize = 0;
    proof {
        lemma_filter_none(processes@, p);
    }
    while i < processes.len()
        invariant
            i <= processes@.len(),
            p == other_process(own_pid),
            others@ == processes@.take(i as int).filter(p),
        decreases processes@.len() - i,
    {
        proof {
            lemma_filter_take(processes@, p, i as int);
        }
        if processes[i].pid != own_pid {
            others.push(processes[i].clone());
        }
        i += 1;
    }
    assert(processes@.take(i as int) == processes@);
    others
}

/// A process with what else is needed to show it.
#[derive(Debug, PartialEq)]
pub struct ProcessReading {
    pub process: AudioProcessInfo,
    pub hidden: bool,
}

/// The detector states that are shown: those of the running engine; while it is being
/// rebuilt those of the one before; and none while ducking is off.
pub open spec fn shown_duck_states(
    state: MacosView,
    engine_states: Seq<PersistedDuckState>,
) -> Map<Seq<char>, PersistedDuckState> {
    if !state.settings.enabled {
        Map::empty()
    } else {
        match state.engine {
            Some(tapped) => slot_states(tapped, engine_states),
            None => if state.pending is Some {
                state.ducking_state
            } else {
                Map::empty()
            },
        }
    }
}

pub open spec fn is_talking(states: Map<Seq<char>, PersistedDuckState>, id: Seq<char>) -> bool {
    states.dom().contains(id) && states[id].is_triggering
}

pub open spec fn anyone_talking(states: Map<Seq<char>, PersistedDuckState>) -> bool {
    exists|id: Seq<char>| #[trigger] is_talking(states, id)
}

/// The name shown for a process whose name is not known yet.
pub open spec fn placeholder_name(pid: i32) -> Seq<char> {
    "pid "@ + signed_decimal(pid as int)
}

/// What a look at the processes brings, so far.
#[verifier::ext_equal]
pub struct MacListingView {
    pub app_info: Map<i32, AppInfoView>,
    pub settings: SettingsView,
    /// Whether the settings changed.
    pub settings_changed: bool,
    pub rows: Seq<SessionView>,
    /// The processes whose name and icon are to be looked for.
    pub to_resolve: Seq<(i32, Option<Seq<char>>)>,
}

/// The name and icon shown for a process.
pub open spec fn shown_info(app_info: Map<i32, AppInfoView>, pid: i32) -> (
    Seq<char>,
    Option<Seq<u8>>,
) {
    if app_info.dom().contains(pid) {
        match app_info[pid] {
            AppInfoView::Resolved(name, icon) => (name, icon),
            AppInfoView::Pending => (placeholder_name(pid), None),
        }
    } else {
        (placeholder_name(pid), None)
    }
}

/// One more process after those of `before`. Hidden ones are left out, and so are those
/// that never made sound. The icon of an application that may trigger ducking is kept once
/// it makes sound.
pub open spec fn process_added(
    before: MacListingView,
    gains: Map<Seq<char>, AppGainState>,
    states: Map<Seq<char>, PersistedDuckState>,
    reading: ProcessReading,
) -> MacListingView {
    let pid = reading.process.pid;
    let id = tap_session_id(pid);
    if reading.hidden || !gains.dom().contains(id) {
        before
    } else {
        let gain = gains[id];
        let (name, icon) = shown_info(before.app_info, pid);
        let known = before.app_info.dom().contains(pid);
        let ducked = anyone_talking(states) && !is_talking(states, id);
        MacListingView {
            app_info: if known {
                before.app_info
            } else {
                before.app_info.insert(pid, AppInfoView::Pending)
            },
            settings: icon_kept(before.settings, name, icon, reading.process.is_running_output),
            settings_changed: before.settings_changed || icon_is_new(
                before.settings,
                name,
                icon,
                reading.process.is_running_output,
            ),
            rows: before.rows.push(
                SessionView {
                    id,
                    display_name: name,
                    icon_png: icon,
                    volume: gain.volume,
                    effective_volume: if ducked {
                        ducked_volume(gain.volume)
                    } else {
                        gain.volume
                    },
                    muted: gain.muted,
                    balance: gain.balance,
                    is_active: reading.process.is_running_output,
                    is_duck_trigger: is_talking(states, id),
                    is_ducked: ducked,
                    write_generation: gain.generation,
                    output_device_id: None,
                },
            ),
            to_resolve: if known {
                before.to_resolve
            } else {
                before.to_resolve.push((pid, opt_text(reading.process.bundle_id)))
            },
        }
    }
}

/// All processes, one after the other.
pub open spec fn processes_listed(
    state: MacosView,
    states: Map<Seq<char>, PersistedDuckState>,
    readings: Seq<ProcessReading>,
) -> MacListingView
    decreases readings.len(),
{
    if readings.len() == 0 {
        MacListingView {
            app_info: state.app_info,
            settings: state.settings,
            settings_changed: false,
            rows: Seq::empty(),
            to_resolve: Seq::empty(),
        }
    } else {
        process_added(
            processes_listed(state, states, readings.drop_last()),
            state.gain_state,
            states,
            readings.last(),
        )
    }
}

pub open spec fn processes_in(readings: Seq<ProcessReading>) -> Seq<AudioProcessInfo> {
    readings.map_values(|r: ProcessReading| r.process)
}

pub open spec fn pids_in(readings: Seq<ProcessReading>) -> Seq<i32> {
    readings.map_values(|r: ProcessReading| r.process.pid)
}

pub open spec fn pid_set(pids: Seq<i32>) -> Set<i32> {
    Set::new(|pid: i32| pids.contains(pid))
}

/// The state after a look at the processes: nothing is kept of those that are gone.
pub open spec fn listed_state(
    state: MacosView,
    app_info: Map<i32, AppInfoView>,
    settings: SettingsView,
    readings: Seq<ProcessReading>,
) -> MacosView {
    let ids = name_set(ids_of(processes_in(readings)));
    let pids = pid_set(pids_in(readings));
    MacosView {
        settings,
        app_info: app_info.restrict(pids),
        hidden: state.hidden.restrict(pids),
        gain_state: state.gain_state.restrict(ids),
        ducking_state: state.ducking_state.restrict(ids),
        hold: state.hold.restrict(ids),
        ..state
    }
}

/// What a look at the processes brings.
#[derive(Debug, PartialEq)]
pub struct MacosListing {
    pub sessions: Vec<AppSession>,
    /// The processes whose name and icon are to be looked for, with their bundle ids.
    pub to_resolve: Vec<(i32, Option<String>)>,
    /// Whether the settings changed and are to be saved.
    pub settings_changed: bool,
}

pub open spec fn resolve_views(requests: Seq<(i32, Option<String>)>) -> Seq<
    (i32, Option<Seq<char>>),
> {
    requests.map_values(|r: (i32, Option<String>)| (r.0, opt_text(r.1)))
}

/// The state after the name and icon of a process were found, if they are still being looked
/// for.
pub open spec fn info_taken(
    state: MacosView,
    pid: i32,
    name: Seq<char>,
    icon: Option<Seq<u8>>,
) -> MacosView {
    if state.app_info.dom().contains(pid) && state.app_info[pid] is Pending {
        MacosView {
            app_info: state.app_info.insert(pid, AppInfoView::Resolved(name, icon)),
            ..state
        }
    } else {
        state
    }
}

/// Whether the process at `i` does not occur again after it.
pub open spec fn is_last_of(processes: Seq<AudioProcessInfo>, i: int) -> bool {
    forall|m: int| i < m < processes.len() ==> (#[trigger] processes[m]).pid != processes[i].pid
}

fn keep_live<V>(cache: &mut HashMap<i32, V>, pids: &Vec<i32>)
    ensures
        final(cache)@ == old(cache)@.restrict(pid_set(pids@)),
{
    let ghost before = cache@;
    let mut kept: HashMap<i32, V> = HashMap::new();
    let mut i: usize = 0;
    while i < pids.len()
        invariant
            i <= pids@.len(),
            forall|k: i32|
                #![trigger kept@.dom().contains(k)]
                kept@.dom().contains(k) <==> before.dom().contains(k) && pids@.take(
                    i as int,
                ).contains(k),
            forall|k: i32|
                #![trigger kept@[k]]
                kept@.dom().contains(k) ==> kept@[k] == before[k],
            forall|k: i32|
                #![trigger cache@.dom().contains(k)]
                cache@.dom().contains(k) <==> before.dom().contains(k) && !pids@.take(
                    i as int,
                ).contains(k),
            forall|k: i32|
                #![trigger cache@[k]]
                cache@.dom().contains(k) ==> cache@[k] == before[k],
        decreases pids@.len() - i,
    {
        let pid: i32 = pids[i];
        proof {
            assert(pids@.take(i + 1) =~= pids@.take(i as int).push(pid));
            lemma_push_members(pids@.take(i as int), pid);
        }
        if let Some(value) = cache.remove(&pid) {
            kept.insert(pid, value);
        }
        i += 1;
    }
    assert(pids@.take(i as int) == pids@);
    *cache = kept;
    assert(cache@ =~= before.restrict(pid_set(pids@)));
}

impl MacosMixerBackend {
    /// Finds out which processes are hidden. Where that is known already, or follows
    /// from the bundle id, nothing else is looked at. What is remembered of a process is
    /// what was said of it.
    pub fn hidden_flags(&mut self, processes: &Vec<AudioProcessInfo>) -> (flags: Vec<bool>)
        ensures
            flags@.len() == processes@.len(),
            final(self)@ == (MacosView { hidden: final(self)@.hidden, ..old(self)@ }),
            forall|pid: i32|
                #[trigger] old(self)@.hidden.dom().contains(pid) ==> final(
                    self
                )@.hidden.dom().contains(pid) && final(self)@.hidden[pid] == old(
                    self,
                )@.hidden[pid],
            forall|pid: i32|
                #[trigger] final(self)@.hidden.dom().contains(pid) ==> old(
                    self,
                )@.hidden.dom().contains(pid) || exists|k: int|
                    0 <= k < processes@.len() && (#[trigger] processes@[k]).pid == pid,
            forall|i: int|
                0 <= i < flags@.len() ==> {
                    let pid = processes@[i].pid;
                    &&& old(self)@.hidden.dom().contains(pid) ==> (#[trigger] flags@[i]) == old(
                        self,
                    )@.hidden[pid]
                    &&& hidden_by_bundle(opt_text(processes@[i].bundle_id))
                        && !old(self)@.hidden.dom().contains(pid) && (forall|k: int|
                        0 <= k < i ==> (#[trigger] processes@[k]).pid != pid) ==> flags@[i]
                    &&& flags@[i] ==> final(self)@.hidden.dom().contains(pid) && final(
                        self
                    )@.hidden[pid]
                    &&& is_last_of(processes@, i) && final(self)@.hidden.dom().contains(pid)
                        ==> final(self)@.hidden[pid] == flags@[i]
                },
    {
        let mut flags: Vec<bool> = Vec::new();
        let mut i: usize = 0;
        while i < processes.len()
            invariant
                i <= processes@.len(),
                flags@.len() == i,
                self@ == (MacosView { hidden: self@.hidden, ..old(self)@ }),
                forall|pid: i32|
                    #[trigger] old(self)@.hidden.dom().contains(pid)
                        ==> self@.hidden.dom().contains(pid) && self@.hidden[pid] == old(
                        self,
                    )@.hidden[pid],
                forall|pid: i32|
                    #[trigger] self@.hidden.dom().contains(pid) ==> old(
                        self,
                    )@.hidden.dom().contains(pid) || exists|k: int|
                        0 <= k < i && (#[trigger] processes@[k]).pid == pid,
                forall|k: int|
                    0 <= k < i ==> {
                        let pid = processes@[k].pid;
                        &&& old(self)@.hidden.dom().contains(pid) ==> (#[trigger] flags@[k])
                            == old(self)@.hidden[pid]
                        &&& hidden_by_bundle(opt_text(processes@[k].bundle_id))
                            && !old(self)@.hidden.dom().contains(pid) && (forall|m: int|
                            0 <= m < k ==> (#[trigger] processes@[m]).pid != pid) ==> flags@[k]
                        &&& flags@[k] ==> self@.hidden.dom().contains(pid) && self@.hidden[pid]
                        &&& is_last_of(processes@.take(i as int), k) && self@.hidden.dom().contains(
                            pid,
                        ) ==> self@.hidden[pid] == flags@[k]
                    },
            decreases processes@.len() - i,
        {
            let ghost before = self@.hidden;
            let pid: i32 = processes[i].pid;
            let bundle_id: Option<&str> = match &processes[i].bundle_id {
                Some(id) => Some(id.as_str()),
                None => None,
            };
            let hidden = is_hidden_system_process_cached(
                &mut self.hidden_process_cache,
                bundle_id,
                pid,
            );
            flags.push(hidden);
            proof {
                let now = processes@.take(i + 1);
                assert forall|k: int| 0 <= k < i + 1 && is_last_of(now, k) && k != i implies (
                #[trigger] processes@[k]).pid != pid && is_last_of(
                    processes@.take(i as int),
                    k,
                ) by {
                    assert(now[i as int].pid == pid);
                    assert(now[k].pid == processes@[k].pid);
                    assert forall|m: int| k < m < i implies (#[trigger] processes@.take(
                        i as int,
                    )[m]).pid != processes@[k].pid by {
                        assert(now[m].pid != now[k].pid);
                    }
                }
                assert(crate::session::opt_str(bundle_id) == opt_text(
                    processes@[i as int].bundle_id,
                ));
                assert(processes@[i as int].pid == pid);
                assert forall|p: i32| #[trigger] self@.hidden.dom().contains(p) implies old(
                    self,
                )@.hidden.dom().contains(p) || exists|k: int|
                    0 <= k < i + 1 && (#[trigger] processes@[k]).pid == p by {
                    if before.dom().contains(p) {
                        if !old(self)@.hidden.dom().contains(p) {
                            let k = choose|k: int|
                                0 <= k < i && (#[trigger] processes@[k]).pid == p;
                            assert(processes@[k].pid == p);
                        }
                    } else {
                        assert(processes@[i as int].pid == p);
                    }
                }
            }
            i += 1;
        }
        assert(processes@.take(i as int) == processes@);
        flags
    }

    fn current_duck_states(&self, engine_states: &Vec<PersistedDuckState>) -> (states: NameMap<
        PersistedDuckState,
    >)
        ensures
            states@ == shown_duck_states(self@, engine_states@),
    {
        let mut states: NameMap<PersistedDuckState> = NameMap::new();
        if !self.ducking_settings.enabled {
            return states;
        }
        match &self.engine {
            Some(tapped) => {
                add_slot_states(&mut states, tapped, engine_states);
                proof {
                    let added = slot_states(texts(tapped@), engine_states@);
                    assert(Map::<Seq<char>, PersistedDuckState>::empty().union_prefer_right(added)
                        =~= added);
                }
                states
            },
            None => if self.pending_rebuild_target.is_some() {
                self.ducking_state.duplicate()
            } else {
                states
            },
        }
    }

    fn add_process(
        &mut self,
        reading: &ProcessReading,
        states: &NameMap<PersistedDuckState>,
        anyone: bool,
        sessions: &mut Vec<AppSession>,
        to_resolve: &mut Vec<(i32, Option<String>)>,
        settings_changed: &mut bool,
    )
        requires
            anyone == anyone_talking(states@),
        ensures
            ({
                let after = process_added(
                    MacListingView {
                        app_info: old(self)@.app_info,
                        settings: old(self)@.settings,
                        settings_changed: *old(settings_changed),
                        rows: session_views(old(sessions)@),
                        to_resolve: resolve_views(old(to_resolve)@),
                    },
                    old(self)@.gain_state,
                    states@,
                    *reading,
                );
                &&& final(self)@ == (MacosView {
                    app_info: after.app_info,
                    settings: after.settings,
                    ..old(self)@
                })
                &&& *final(settings_changed) == after.settings_changed
                &&& session_views(final(sessions)@) == after.rows
                &&& resolve_views(final(to_resolve)@) == after.to_resolve
            }),
    {
        if reading.hidden {
            return ;
        }
        let pid: i32 = reading.process.pid;
        let id = session_id_for_pid(pid);
        let gain: AppGainState = match self.gain_state.get(&id) {
            Some(gain) => *gain,
            None => return ,
        };
        let ghost sessions_before = sessions@;
        let ghost requests_before = to_resolve@;
        let known = self.app_info_cache.contains_key(&pid);
        let (display_name, icon_png) = match self.app_info_cache.get(&pid) {
            Some(AppInfoCacheEntry::Resolved(name, icon)) => (name.clone(), copy_icon(icon)),
            _ => (with_signed("pid ", pid), None),
        };
        if !known {
            proof {
                lemma_map_values_insert(
                    self.app_info_cache@,
                    info_in(),
                    pid,
                    AppInfoCacheEntry::Pending,
                );
            }
            self.app_info_cache.insert(pid, AppInfoCacheEntry::Pending);
            to_resolve.push((pid, copy_text(&reading.process.bundle_id)));
            assert(resolve_views(to_resolve@) =~= resolve_views(requests_before).push(
                (pid, opt_text(reading.process.bundle_id)),
            ));
        }
        if keep_icon(
            &mut self.ducking_settings,
            &display_name,
            &icon_png,
            reading.process.is_running_output,
        ) {
            *settings_changed = true;
        }
        let is_duck_trigger = match states.get(&id) {
            Some(state) => state.is_triggering,
            None => false,
        };
        let is_ducked = anyone && !is_duck_trigger;
        let session = AppSession {
            id,
            display_name,
            icon_png,
            volume: gain.volume,
            effective_volume: if is_ducked {
                duck_volume(gain.volume)
            } else {
                gain.volume
            },
            muted: gain.muted,
            balance: gain.balance,
            is_active: reading.process.is_running_output,
            is_duck_trigger,
            is_ducked,
            write_generation: gain.generation,
            output_device_id: None,
        };
        let ghost row = session@;
        sessions.push(session);
        assert(session_views(sessions@) =~= session_views(sessions_before).push(row));
    }

    /// Turns what was read of the processes into the rows to show, sorted by name and
    /// id. `engine_states` holds the detector states of the running engine, slot by
    /// slot.
    pub fn list_sessions(
        &mut self,
        readings: &Vec<ProcessReading>,
        engine_states: &Vec<PersistedDuckState>,
    ) -> (result: MacosListing)
        ensures
            ({
                let states = shown_duck_states(old(self)@, engine_states@);
                let listing = processes_listed(old(self)@, states, readings@);
                &&& final(self)@ == listed_state(
                    old(self)@,
                    listing.app_info,
                    listing.settings,
                    readings@,
                )
                &&& result.settings_changed == listing.settings_changed
                &&& session_views(result.sessions@) == sorted(listing.rows, by_name_then_id())
                &&& resolve_views(result.to_resolve@) == listing.to_resolve
            }),
    {
        let states = self.current_duck_states(engine_states);
        let anyone = any_talking(&states);
        let ghost start = self@;
        let mut sessions: Vec<AppSession> = Vec::new();
        let mut to_resolve: Vec<(i32, Option<String>)> = Vec::new();
        let mut settings_changed = false;
        let mut processes: Vec<AudioProcessInfo> = Vec::new();
        let mut pids: Vec<i32> = Vec::new();
        let mut i: usize = 0;
        proof {
            assert(readings@.take(0) =~= Seq::<ProcessReading>::empty());
            assert(session_views(sessions@) =~= Seq::<SessionView>::empty());
            assert(resolve_views(to_resolve@) =~= Seq::<(i32, Option<Seq<char>>)>::empty());
        }
        while i < readings.len()
            invariant
                i <= readings@.len(),
                anyone == anyone_talking(states@),
                ({
                    let listing = processes_listed(start, states@, readings@.take(i as int));
                    &&& self@ == (MacosView {
                        app_info: listing.app_info,
                        settings: listing.settings,
                        ..start
                    })
                    &&& settings_changed == listing.settings_changed
                    &&& session_views(sessions@) == listing.rows
                    &&& resolve_views(to_resolve@) == listing.to_resolve
                }),
                processes@.len() == i,
                pids@.len() == i,
                forall|k: int|
                    0 <= k < i ==> #[trigger] processes@[k] == readings@[k].process,
                forall|k: int| 0 <= k < i ==> #[trigger] pids@[k] == readings@[k].process.pid,
            decreases readings@.len() - i,
        {
            proof {
                assert(readings@.take(i + 1).drop_last() == readings@.take(i as int));
                assert(readings@.take(i + 1).last() == readings@[i as int]);
            }
            self.add_process(
                &readings[i],
                &states,
                anyone,
                &mut sessions,
                &mut to_resolve,
                &mut settings_changed,
            );
            processes.push(readings[i].process.clone());
            pids.push(readings[i].process.pid);
            i += 1;
        }
        proof {
            assert(readings@.take(i as int) == readings@);
            assert(processes@ =~= processes_in(readings@));
            assert(pids@ =~= pids_in(readings@));
            lemma_map_values_restrict(self.app_info_cache@, info_in(), pid_set(pids@));
        }
        let ids = ids_for(&processes);
        keep_live(&mut self.app_info_cache, &pids);
        keep_live(&mut self.hidden_process_cache, &pids);
        self.gain_state.keep_only(&ids);
        self.ducking_state.keep_only(&ids);
        self.active_hold_until.keep_only(&ids);
        MacosListing { sessions: sort_sessions(sessions), to_resolve, settings_changed }
    }

    /// Takes in the name and icon that were found for a process, if they are still
    /// being looked for.
    pub fn app_info_resolved(&mut self, pid: i32, name: String, icon_png: Option<Vec<u8>>)
        ensures
            final(self)@ == info_taken(old(self)@, pid, name@, opt_bytes(icon_png)),
    {
        let is_pending = match self.app_info_cache.get(&pid) {
            Some(AppInfoCacheEntry::Pending) => true,
            _ => false,
        };
        if is_pending {
            let entry = AppInfoCacheEntry::Resolved(name, icon_png);
            proof {
                lemma_map_values_insert(self.app_info_cache@, info_in(), pid, entry);
            }
            self.app_info_cache.insert(pid, entry);
        }
    }
}

fn any_talking(states: &NameMap<PersistedDuckState>) -> (any: bool)
    ensures
        any == anyone_talking(states@),
{
    let n: usize = states.len();
    let ghost keys = states.keys();
    let mut i: usize = 0;
    while i < n
        invariant
            i <= n == keys.len(),
            keys == states.keys(),
            forall|k: Seq<char>| keys.contains(k) <==> states@.dom().contains(k),
            forall|k: int| 0 <= k < i ==> !is_talking(states@, #[trigger] keys[k]),
        decreases n - i,
    {
        let state: PersistedDuckState = *states.value_at(i);
        if state.is_triggering {
            assert(keys.contains(keys[i as int]));
            assert(is_talking(states@, keys[i as int]));
            return true;
        }
        i += 1;
    }
    proof {
        if anyone_talking(states@) {
            let id = choose|id: Seq<char>| #[trigger] is_talking(states@, id);
            assert(keys.contains(id));
            let k = choose|k: int| 0 <= k < keys.len() && keys[k] == id;
            assert(!is_talking(states@, keys[k]));
        }
    }
    false
}

} // verus!
