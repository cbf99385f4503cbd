//! Sessions on macOS: every process that makes sound is tapped, and an engine mixes
//! the taps. The engine is rebuilt whenever the tapped processes change.

use std::collections::HashMap;
use vstd::prelude::*;

use crate::duck_detect::{unheard, PersistedDuckState};
use crate::gain::{balance_set, full_volume, muted_set, volume_set, AppGainState};
use crate::level::Level;
use crate::name_map::{listed, name_set, texts, NameMap};
use crate::seqs::{lemma_filter_none, lemma_filter_take};
use crate::session::{
    asks_for_triggers, copy_names, copy_text, opt_bytes, running_well_known,
    seed_communication_apps, session_not_found, set_enabled, toggle_priority_trigger, toggled, well_known_names,
    DuckingSettings, MixerError, MixerErrorView, SettingsView,
};
use crate::text::{decimal, lemma_decimal_reads_back, signed_decimal, with_signed};

verus! {

broadcast use vstd::std_specs::hash::group_hash_axioms;

/// The session id of a process.
pub open spec fn tap_session_id(pid: i32) -> Seq<char> {
    "macos-"@ + signed_decimal(pid as int)
}

/// The session id of a process.
pub fn session_id_for_pid(pid: i32) -> (id: String)
    ensures
        id@ == tap_session_id(pid),
{
    with_signed("macos-", pid)
}

/// Two processes never share a session id.
pub proof fn law_tap_session_ids_differ(a: i32, b: i32)
    requires
        a != b,
    ensures
        tap_session_id(a) != tap_session_id(b),
{
    if tap_session_id(a) == tap_session_id(b) {
        let n = "macos-"@.len() as int;
        let x = signed_decimal(a as int);
        let y = signed_decimal(b as int);
        assert(tap_session_id(a).skip(n) =~= x);
        assert(tap_session_id(b).skip(n) =~= y);
        assert(x == y);
        let ma = (if a < 0 { -(a as int) } else { a as int }) as nat;
        let mb = (if b < 0 { -(b as int) } else { b as int }) as nat;
        lemma_decimal_reads_back(ma);
        lemma_decimal_reads_back(mb);
        assert(crate::text::is_digit(decimal(ma)[0]));
        assert(crate::text::is_digit(decimal(mb)[0]));
        if a < 0 {
            assert(x[0] == '-');
            assert(b < 0);
            assert(x.skip(1) =~= decimal(ma));
            assert(y.skip(1) =~= decimal(mb));
        } else {
            assert(x[0] == decimal(ma)[0]);
            assert(b >= 0);
        }
    }
}

/// One process as the audio system reports it.
#[derive(Debug, PartialEq)]
pub struct AudioProcessInfo {
    pub object_id: u32,
    pub pid: i32,
    pub bundle_id: Option<String>,
    /// Whether it is making sound right now, as far as it says.
    pub is_running_output: bool,
}

impl Clone for AudioProcessInfo {
    fn clone(&self) -> (copy: Self)
        ensures
            copy == *self,
    {
        AudioProcessInfo {
            object_id: self.object_id,
            pid: self.pid,
            bundle_id: copy_text(&self.bundle_id),
            is_running_output: self.is_running_output,
        }
    }
}

/// What is known of an application's name and icon.
#[derive(Debug, PartialEq)]
pub enum AppInfoCacheEntry {
    /// They are being looked for.
    Pending,
    Resolved(String, Option<Vec<u8>>),
}

/// What an `AppInfoCacheEntry` holds.
pub enum AppInfoView {
    Pending,
    Resolved(Seq<char>, Option<Seq<u8>>),
}

impl View for AppInfoCacheEntry {
    type V = AppInfoView;

    open spec fn view(&self) -> AppInfoView {
        match *self {
            AppInfoCacheEntry::Pending => AppInfoView::Pending,
            AppInfoCacheEntry::Resolved(name, icon) => AppInfoView::Resolved(
                name@,
                opt_bytes(icon),
            ),
        }
    }
}

pub open spec fn info_in() -> spec_fn(AppInfoCacheEntry) -> AppInfoView {
    |e: AppInfoCacheEntry| e@
}

/// How long, in nanoseconds, a process stays wanted after it was last seen making
/// sound: the report may drop out for a moment.
pub const ACTIVE_HOLD_NANOS: u64 = 1_500_000_000;

/// What is remembered between two looks at the processes. Times are in nanoseconds
/// since some fixed moment.
pub struct MacosMixerBackend {
    /// What the user set for each application.
    pub gain_state: NameMap<AppGainState>,
    /// The session ids that the running engine taps, in the order of its slots.
    pub engine: Option<Vec<String>>,
    /// Names and icons, by process.
    pub app_info_cache: HashMap<i32, AppInfoCacheEntry>,
    /// Which processes are hidden.
    pub hidden_process_cache: HashMap<i32, bool>,
    /// Until when a session stays wanted.
    pub active_hold_until: NameMap<u64>,
    pub ducking_settings: DuckingSettings,
    /// How far each application had come toward being a trigger when its engine was
    /// taken down.
    pub ducking_state: NameMap<PersistedDuckState>,
    /// Counts rebuilds.
    pub rebuild_generation: u64,
    /// What the rebuild that is under way will tap.
    pub pending_rebuild_target: Option<Vec<String>>,
    /// Which sessions the running engine keeps from being triggers.
    pub installed_duck_excluded: NameMap<bool>,
}

/// What a `MacosMixerBackend` holds.
#[verifier::ext_equal]
pub struct MacosView {
    pub gain_state: Map<Seq<char>, AppGainState>,
    pub engine: Option<Seq<Seq<char>>>,
    pub app_info: Map<i32, AppInfoView>,
    pub hidden: Map<i32, bool>,
    pub hold: Map<Seq<char>, u64>,
    pub settings: SettingsView,
    pub ducking_state: Map<Seq<char>, PersistedDuckState>,
    pub rebuild_generation: u64,
    pub pending: Option<Seq<Seq<char>>>,
    pub installed: Map<Seq<char>, bool>,
}

pub open spec fn opt_names(names: Option<Vec<String>>) -> Option<Seq<Seq<char>>> {
    match names {
        Some(names) => Some(texts(names@)),
        None => None,
    }
}

impl View for MacosMixerBackend {
    type V = MacosView;

    open spec fn view(&self) -> MacosView {
        MacosView {
            gain_state: self.gain_state@,
            engine: opt_names(self.engine),
            app_info: self.app_info_cache@.map_values(info_in()),
            hidden: self.hidden_process_cache@,
            hold: self.active_hold_until@,
            settings: self.ducking_settings@,
            ducking_state: self.ducking_state@,
            rebuild_generation: self.rebuild_generation,
            pending: opt_names(self.pending_rebuild_target),
            installed: self.installed_duck_excluded@,
        }
    }
}

/// The state at the start.
pub open spec fn initial_state(settings: SettingsView) -> MacosView {
    MacosView {
        gain_state: Map::empty(),
        engine: None,
        app_info: Map::empty(),
        hidden: Map::empty(),
        hold: Map::empty(),
        settings,
        ducking_state: Map::empty(),
        rebuild_generation: 0,
        pending: None,
        installed: Map::empty(),
    }
}

/// Whether a process is to be tapped: it is making sound, or was a moment ago.
pub open spec fn is_wanted(is_running_output: bool, hold_until: Option<u64>, now: u64) -> bool {
    is_running_output || (hold_until matches Some(until) && until > now)
}

pub fn is_wanted_for_reconciliation(
    is_running_output: bool,
    hold_until: Option<u64>,
    now: u64,
) -> (wanted: bool)
    ensures
        wanted == is_wanted(is_running_output, hold_until, now),
{
    is_running_output || (match hold_until {
        Some(until) => until > now,
        None => false,
    })
}

/// The state once the processes that are making sound have been noted: new ones start
/// at full volume, and all of them stay wanted for a while.
pub open spec fn noted(
    state: MacosView,
    processes: Seq<AudioProcessInfo>,
    now: u64,
) -> MacosView
    decreases processes.len(),
{
    if processes.len() == 0 {
        state
    } else {
        let before = noted(state, processes.drop_last(), now);
        let id = tap_session_id(processes.last().pid);
        if processes.last().is_running_output {
            MacosView {
                gain_state: if before.gain_state.dom().contains(id) {
                    before.gain_state
                } else {
                    before.gain_state.insert(id, full_volume())
                },
                hold: before.hold.insert(id, (now + ACTIVE_HOLD_NANOS) as u64),
                ..before
            }
        } else {
            before
        }
    }
}

pub open spec fn hold_of(hold: Map<Seq<char>, u64>, id: Seq<char>) -> Option<u64> {
    if hold.dom().contains(id) {
        Some(hold[id])
    } else {
        None
    }
}

/// Being a process that is to be tapped.
pub open spec fn tappable(hold: Map<Seq<char>, u64>, now: u64) -> spec_fn(
    AudioProcessInfo,
) -> bool {
    |p: AudioProcessInfo|
        is_wanted(p.is_running_output, hold_of(hold, tap_session_id(p.pid)), now)
}

/// The processes that are to be tapped.
pub open spec fn active(
    state: MacosView,
    processes: Seq<AudioProcessInfo>,
    now: u64,
) -> Seq<AudioProcessInfo> {
    processes.filter(tappable(state.hold, now))
}

pub open spec fn ids_of(processes: Seq<AudioProcessInfo>) -> Seq<Seq<char>> {
    processes.map_values(|p: AudioProcessInfo| tap_session_id(p.pid))
}

/// Whether a process must not be a trigger: its name is not known to be one of the
/// triggers.
pub open spec fn is_excluded(state: MacosView, pid: i32) -> bool {
    !(state.app_info.dom().contains(pid) && (state.app_info[pid] matches AppInfoView::Resolved(
        name,
        _,
    ) && state.settings.priority_triggers.contains(name)))
}

/// Which of the processes must not be triggers, by session id.
pub open spec fn exclusions(
    state: MacosView,
    processes: Seq<AudioProcessInfo>,
) -> Map<Seq<char>, bool>
    decreases processes.len(),
{
    if processes.len() == 0 {
        Map::empty()
    } else {
        exclusions(state, processes.drop_last()).insert(
            tap_session_id(processes.last().pid),
            is_excluded(state, processes.last().pid),
        )
    }
}

pub open spec fn tapped_ids(state: MacosView) -> Seq<Seq<char>> {
    match state.engine {
        Some(ids) => ids,
        None => Seq::empty(),
    }
}

pub open spec fn opt_get<V>(m: Map<Seq<char>, V>, k: Seq<char>) -> Option<V> {
    if m.dom().contains(k) {
        Some(m[k])
    } else {
        None
    }
}

/// Whether the running engine is right for these processes: it taps exactly them, and
/// keeps exactly the right ones from being triggers.
pub open spec fn is_up_to_date(state: MacosView, active: Seq<AudioProcessInfo>) -> bool {
    let wanted = ids_of(active);
    let fresh = exclusions(state, active);
    &&& name_set(tapped_ids(state)) == name_set(wanted)
    &&& forall|i: int|
        0 <= i < wanted.len() ==> opt_get(state.installed, #[trigger] wanted[i]) == opt_get(
            fresh,
            wanted[i],
        )
}

/// The slot of a session: the last one that taps it.
pub open spec fn slot_of(tapped: Seq<Seq<char>>, id: Seq<char>) -> Option<int>
    decreases tapped.len(),
{
    if tapped.len() == 0 {
        None
    } else if tapped.last() == id {
        Some(tapped.len() - 1)
    } else {
        slot_of(tapped.drop_last(), id)
    }
}

/// The states of an engine's slots, by session id.
pub open spec fn slot_states(
    tapped: Seq<Seq<char>>,
    states: Seq<PersistedDuckState>,
) -> Map<Seq<char>, PersistedDuckState> {
    Map::new(
        |id: Seq<char>| slot_of(tapped, id) matches Some(i) && i < states.len(),
        |id: Seq<char>| states[slot_of(tapped, id).unwrap()],
    )
}

/// The gain states, with full volume for each session that has none.
pub open spec fn gains_added(
    gains: Map<Seq<char>, AppGainState>,
    ids: Seq<Seq<char>>,
) -> Map<Seq<char>, AppGainState>
    decreases ids.len(),
{
    if ids.len() == 0 {
        gains
    } else {
        let before = gains_added(gains, ids.drop_last());
        if before.dom().contains(ids.last()) {
            before
        } else {
            before.insert(ids.last(), full_volume())
        }
    }
}

/// One tap of an engine that is to be built.
#[derive(Debug, PartialEq)]
pub struct PlannedTap {
    pub object_id: u32,
    pub session_id: String,
    pub gain: AppGainState,
    /// Whether it must not be a trigger.
    pub excluded: bool,
    /// What its detector goes on from.
    pub persisted: PersistedDuckState,
}

/// What a `PlannedTap` holds.
#[verifier::ext_equal]
pub struct PlannedTapView {
    pub object_id: u32,
    pub session_id: Seq<char>,
    pub gain: AppGainState,
    pub excluded: bool,
    pub persisted: PersistedDuckState,
}

impl View for PlannedTap {
    type V = PlannedTapView;

    open spec fn view(&self) -> PlannedTapView {
        PlannedTapView {
            object_id: self.object_id,
            session_id: self.session_id@,
            gain: self.gain,
            excluded: self.excluded,
            persisted: self.persisted,
        }
    }
}

pub open spec fn planned_views(taps: Seq<PlannedTap>) -> Seq<PlannedTapView> {
    taps.map_values(|t: PlannedTap| t@)
}

/// An engine that is to be built.
#[derive(Debug, PartialEq)]
pub struct RebuildPlan {
    /// The rebuild that this is.
    pub generation: u64,
    pub taps: Vec<PlannedTap>,
}

/// What to do about the engine.
#[derive(Debug, PartialEq)]
pub enum EngineAction {
    /// Leave it as it is.
    Keep,
    /// Take it down.
    TearDown,
    /// Take it down and build another one.
    Rebuild(RebuildPlan),
}

/// The taps of an engine for these processes, in the state that they will have.
pub open spec fn planned_taps(
    state: MacosView,
    active: Seq<AudioProcessInfo>,
) -> Seq<PlannedTapView> {
    Seq::new(
        active.len(),
        |i: int|
            {
                let id = tap_session_id(active[i].pid);
                PlannedTapView {
                    object_id: active[i].object_id,
                    session_id: id,
                    gain: state.gain_state[id],
                    excluded: is_excluded(state, active[i].pid),
                    persisted: match opt_get(state.ducking_state, id) {
                        Some(s) => s,
                        None => unheard(),
                    },
                }
            },
    )
}

/// The state after the engine was taken down: what its detectors had come to is kept.
pub open spec fn taken_down(state: MacosView, outgoing: Seq<PersistedDuckState>) -> MacosView {
    MacosView {
        ducking_state: match state.engine {
            Some(tapped) => state.ducking_state.union_prefer_right(slot_states(tapped, outgoing)),
            None => state.ducking_state,
        },
        engine: None,
        ..state
    }
}

/// What comes of comparing the engine with the processes that are to be tapped: the
/// state after it, and the action.
pub open spec fn reconciled(
    state: MacosView,
    active: Seq<AudioProcessInfo>,
    outgoing: Seq<PersistedDuckState>,
) -> MacosView {
    if is_up_to_date(state, active) || state.pending is Some {
        state
    } else {
        let down = taken_down(state, outgoing);
        if active.len() == 0 {
            MacosView { installed: Map::empty(), ..down }
        } else {
            MacosView {
                gain_state: gains_added(down.gain_state, ids_of(active)),
                rebuild_generation: crate::session::next_generation(down.rebuild_generation),
                pending: Some(ids_of(active)),
                ..down
            }
        }
    }
}

/// What has come of a rebuild.
#[derive(Debug, PartialEq)]
pub enum RebuildOutcome {
    /// Another one was started meanwhile; this one is dropped.
    Superseded,
    /// It could not be built.
    Failed,
    /// It runs now, and the gains of these slots are to be set.
    Installed(Vec<(usize, AppGainState)>),
}

/// Whether `updates` are the gains to set in the slots: those of every tapped session
/// that has any, in its slot.
pub open spec fn are_gain_updates(
    gains: Map<Seq<char>, AppGainState>,
    tapped: Seq<Seq<char>>,
    updates: Seq<(usize, AppGainState)>,
) -> bool {
    &&& forall|k: int|
        0 <= k < updates.len() ==> {
            let (slot, gain) = #[trigger] updates[k];
            &&& slot < tapped.len()
            &&& slot_of(tapped, tapped[slot as int]) == Some(slot as int)
            &&& gains.dom().contains(tapped[slot as int])
            &&& gain == gains[tapped[slot as int]]
        }
    &&& forall|i: int|
        0 <= i < tapped.len() && slot_of(tapped, #[trigger] tapped[i]) == Some(i)
            && gains.dom().contains(tapped[i]) ==> exists|k: int|
            0 <= k < updates.len() && (#[trigger] updates[k]).0 == i
}

/// The session ids of planned taps.
pub open spec fn planned_ids(taps: Seq<PlannedTapView>) -> Seq<Seq<char>> {
    taps.map_values(|t: PlannedTapView| t.session_id)
}

/// Which of the planned taps must not be triggers.
pub open spec fn planned_exclusions(taps: Seq<PlannedTapView>) -> Map<Seq<char>, bool>
    decreases taps.len(),
{
    if taps.len() == 0 {
        Map::empty()
    } else {
        planned_exclusions(taps.drop_last()).insert(taps.last().session_id, taps.last().excluded)
    }
}

/// The state after a rebuild came to its end.
pub open spec fn rebuilt(
    state: MacosView,
    generation: u64,
    taps: Seq<PlannedTapView>,
    built: bool,
) -> MacosView {
    if state.rebuild_generation != generation {
        state
    } else if built {
        MacosView {
            pending: None,
            engine: Some(planned_ids(taps)),
            installed: planned_exclusions(taps),
            ..state
        }
    } else {
        MacosView { pending: None, ..state }
    }
}

/// The slot of a session is the last place where it stands.
pub proof fn lemma_slot_of_some(tapped: Seq<Seq<char>>, id: Seq<char>)
    ensures
        match slot_of(tapped, id) {
            Some(i) => 0 <= i < tapped.len() && tapped[i] == id && forall|k: int|
                i < k < tapped.len() ==> #[trigger] tapped[k] != id,
            None => forall|k: int| 0 <= k < tapped.len() ==> #[trigger] tapped[k] != id,
        },
    decreases tapped.len(),
{
    if tapped.len() > 0 && tapped.last() != id {
        lemma_slot_of_some(tapped.drop_last(), id);
        assert forall|k: int| 0 <= k < tapped.len() - 1 implies tapped.drop_last()[k]
            == tapped[k] by {}
    }
}

/// The slot of a session.
fn find_slot(tapped: &Vec<String>, id: &str) -> (slot: Option<usize>)
    ensures
        match slot {
            Some(i) => slot_of(texts(tapped@), id@) == Some(i as int) && i < tapped@.len(),
            None => slot_of(texts(tapped@), id@) is None,
        },
{
    let ghost ids = texts(tapped@);
    let mut n: usize = tapped.len();
    assert(ids.take(n as int) == ids);
    while n > 0
        invariant
            n <= tapped@.len(),
            ids == texts(tapped@),
            slot_of(ids, id@) == slot_of(ids.take(n as int), id@),
        decreases n,
    {
        proof {
            assert(ids.take(n as int).last() == tapped@[n - 1]@);
            assert(ids.take(n as int).drop_last() == ids.take(n - 1));
        }
        if crate::text::same_text(&tapped[n - 1], id) {
            return Some(n - 1);
        }
        n -= 1;
    }
    None
}

/// Sets the states of an engine's slots, by session id.
pub fn add_slot_states(
    target: &mut NameMap<PersistedDuckState>,
    tapped: &Vec<String>,
    states: &Vec<PersistedDuckState>,
)
    ensures
        final(target)@ == old(target)@.union_prefer_right(slot_states(texts(tapped@), states@)),
{
    let ghost ids = texts(tapped@);
    let ghost added = slot_states(ids, states@);
    let ghost before = target@;
    let mut i: usize = 0;
    proof {
        assert forall|id: Seq<char>| #[trigger] added.dom().contains(id) implies slot_of(
            ids,
            id,
        ).unwrap() >= 0 by {
            lemma_slot_of_some(ids, id);
        }
    }
    while i < tapped.len()
        invariant
            i <= tapped@.len(),
            ids == texts(tapped@),
            added == slot_states(ids, states@),
            forall|id: Seq<char>|
                #![trigger target@.dom().contains(id)]
                target@.dom().contains(id) <==> before.dom().contains(id) || (
                added.dom().contains(id) && slot_of(ids, id).unwrap() < i),
            forall|id: Seq<char>|
                #![trigger target@[id]]
                target@.dom().contains(id) ==> target@[id] == (if added.dom().contains(id)
                    && slot_of(ids, id).unwrap() < i {
                    added[id]
                } else {
                    before[id]
                }),
        decreases tapped@.len() - i,
    {
        proof {
            assert(ids[i as int] == tapped@[i as int]@);
            assert forall|id: Seq<char>| slot_of(ids, id) == Some(i as int) implies id
                == ids[i as int] by {
                lemma_slot_of_some(ids, id);
            }
        }
        let is_own = match find_slot(tapped, &tapped[i]) {
            Some(slot) => slot == i,
            None => false,
        };
        if is_own && i < states.len() {
            target.insert(&tapped[i], states[i]);
        }
        i += 1;
    }
    proof {
        assert forall|id: Seq<char>| added.dom().contains(id) implies slot_of(ids, id).unwrap()
            < i by {
            lemma_slot_of_some(ids, id);
        }
        assert(target@ =~= before.union_prefer_right(added));
    }
}

pub fn ids_for(processes: &Vec<AudioProcessInfo>) -> (ids: Vec<String>)
    ensures
        texts(ids@) == ids_of(processes@),
{
    let mut ids: Vec<String> = Vec::new();
    let mut i: usize = 0;
    while i < processes.len()
        invariant
            i <= processes@.len(),
            ids@.len() == i,
            forall|k: int|
                0 <= k < i ==> (#[trigger] ids@[k])@ == tap_session_id(processes@[k].pid),
        decreases processes@.len() - i,
    {
        ids.push(session_id_for_pid(processes[i].pid));
        i += 1;
    }
    assert(texts(ids@) =~= ids_of(processes@));
    ids
}

/// Whether two lists hold the same names.
fn same_names(a: &Vec<String>, b: &Vec<String>) -> (same: bool)
    ensures
        same == (name_set(texts(a@)) == name_set(texts(b@))),
{
    let mut i: usize = 0;
    while i < a.len()
        invariant
            i <= a@.len(),
            forall|k: int| 0 <= k < i ==> texts(b@).contains(#[trigger] texts(a@)[k]),
        decreases a@.len() - i,
    {
        assert(texts(a@)[i as int] == a@[i as int]@);
        if !listed(b, &a[i]) {
            proof {
                assert(texts(a@).contains(a@[i as int]@));
                assert(name_set(texts(a@)).contains(a@[i as int]@));
                assert(!name_set(texts(b@)).contains(a@[i as int]@));
            }
            return false;
        }
        i += 1;
    }
    let mut j: usize = 0;
    while j < b.len()
        invariant
            j <= b@.len(),
            forall|k: int| 0 <= k < j ==> texts(a@).contains(#[trigger] texts(b@)[k]),
        decreases b@.len() - j,
    {
        assert(texts(b@)[j as int] == b@[j as int]@);
        if !listed(a, &b[j]) {
            proof {
                assert(texts(b@).contains(b@[j as int]@));
                assert(name_set(texts(b@)).contains(b@[j as int]@));
                assert(!name_set(texts(a@)).contains(b@[j as int]@));
            }
            return false;
        }
        j += 1;
    }
    proof {
        assert forall|x: Seq<char>| name_set(texts(a@)).contains(x) == name_set(
            texts(b@),
        ).contains(x) by {
            if texts(a@).contains(x) {
                let k = choose|k: int| 0 <= k < texts(a@).len() && texts(a@)[k] == x;
                assert(texts(b@).contains(texts(a@)[k]));
            }
            if texts(b@).contains(x) {
                let k = choose|k: int| 0 <= k < texts(b@).len() && texts(b@)[k] == x;
                assert(texts(a@).contains(texts(b@)[k]));
            }
        }
        assert(name_set(texts(a@)) =~= name_set(texts(b@)));
    }
    true
}

impl MacosMixerBackend {
    pub fn new(ducking_settings: DuckingSettings) -> (backend: Self)
        ensures
            backend@ == initial_state(ducking_settings@),
    {
        let backend = MacosMixerBackend {
            gain_state: NameMap::new(),
            engine: None,
            app_info_cache: HashMap::new(),
            hidden_process_cache: HashMap::new(),
            active_hold_until: NameMap::new(),
            ducking_settings,
            ducking_state: NameMap::new(),
            rebuild_generation: 0,
            pending_rebuild_target: None,
            installed_duck_excluded: NameMap::new(),
        };
        assert(backend@ =~= initial_state(ducking_settings@));
        backend
    }

    /// Notes the processes that are making sound.
    pub fn note_running(&mut self, processes: &Vec<AudioProcessInfo>, now: u64)
        requires
            now + ACTIVE_HOLD_NANOS <= u64::MAX,
        ensures
            final(self)@ == noted(old(self)@, processes@, now),
    {
        let mut i: usize = 0;
        assert(processes@.take(0) =~= Seq::<AudioProcessInfo>::empty());
        while i < processes.len()
            invariant
                i <= processes@.len(),
                now + ACTIVE_HOLD_NANOS <= u64::MAX,
                self@ == noted(old(self)@, processes@.take(i as int), now),
            decreases processes@.len() - i,
        {
            proof {
                assert(processes@.take(i + 1).drop_last() == processes@.take(i as int));
                assert(processes@.take(i + 1).last() == processes@[i as int]);
            }
            if processes[i].is_running_output {
                let id = session_id_for_pid(processes[i].pid);
                if !self.gain_state.contains(&id) {
                    self.gain_state.insert(&id, AppGainState::default_full_volume());
                }
                self.active_hold_until.insert(&id, now + ACTIVE_HOLD_NANOS);
            }
            i += 1;
        }
        assert(processes@.take(i as int) == processes@);
    }

    fn active_processes(&self, processes: &Vec<AudioProcessInfo>, now: u64) -> (found: Vec<
        AudioProcessInfo,
    >)
        ensures
            found@ == active(self@, processes@, now),
    {
        let ghost p = tappable(self@.hold, now);
        let mut found: Vec<AudioProcessInfo> = Vec::new();
        let mut i: usize = 0;
        proof {
            lemma_filter_none(processes@, p);
        }
        while i < processes.len()
            invariant
                i <= processes@.len(),
                p == tappable(self@.hold, now),
                found@ == processes@.take(i as int).filter(p),
            decreases processes@.len() - i,
        {
            proof {
                lemma_filter_take(processes@, p, i as int);
            }
            let id = session_id_for_pid(processes[i].pid);
            let hold: Option<u64> = match self.active_hold_until.get(&id) {
                Some(until) => Some(*until),
                None => None,
            };
            if is_wanted_for_reconciliation(processes[i].is_running_output, hold, now) {
                found.push(processes[i].clone());
            }
            i += 1;
        }
        assert(processes@.take(i as int) == processes@);
        found
    }

    fn excluded(&self, pid: i32) -> (excluded: bool)
        ensures
            excluded == is_excluded(self@, pid),
    {
        match self.app_info_cache.get(&pid) {
            Some(entry) => match entry {
                AppInfoCacheEntry::Resolved(name, _) => !listed(
                    &self.ducking_settings.priority_triggers,
                    name,
                ),
                AppInfoCacheEntry::Pending => true,
            },
            None => true,
        }
    }

    fn fresh_exclusions(&self, active: &Vec<AudioProcessInfo>) -> (fresh: NameMap<bool>)
        ensures
            fresh@ == exclusions(self@, active@),
    {
        let mut fresh: NameMap<bool> = NameMap::new();
        let mut i: usize = 0;
        assert(active@.take(0) =~= Seq::<AudioProcessInfo>::empty());
        while i < active.len()
            invariant
                i <= active@.len(),
                fresh@ == exclusions(self@, active@.take(i as int)),
            decreases active@.len() - i,
        {
            proof {
                assert(active@.take(i + 1).drop_last() == active@.take(i as int));
                assert(active@.take(i + 1).last() == active@[i as int]);
            }
            let id = session_id_for_pid(active[i].pid);
            fresh.insert(&id, self.excluded(active[i].pid));
            i += 1;
        }
        assert(active@.take(i as int) == active@);
        fresh
    }

    fn up_to_date(&self, active: &Vec<AudioProcessInfo>, wanted: &Vec<String>) -> (yes: bool)
        requires
            texts(wanted@) == ids_of(active@),
        ensures
            yes == is_up_to_date(self@, active@),
    {
        let fresh = self.fresh_exclusions(active);
        let same_taps = match &self.engine {
            Some(tapped) => same_names(tapped, wanted),
            None => {
                let none: Vec<String> = Vec::new();
                assert(texts(none@) =~= Seq::<Seq<char>>::empty());
                same_names(&none, wanted)
            },
        };
        if !same_taps {
            return false;
        }
        let mut i: usize = 0;
        while i < wanted.len()
            invariant
                i <= wanted@.len(),
                texts(wanted@) == ids_of(active@),
                fresh@ == exclusions(self@, active@),
                forall|k: int|
                    0 <= k < i ==> opt_get(self@.installed, #[trigger] ids_of(active@)[k])
                        == opt_get(fresh@, ids_of(active@)[k]),
            decreases wanted@.len() - i,
        {
            assert(ids_of(active@)[i as int] == wanted@[i as int]@);
            let installed: Option<bool> = match self.installed_duck_excluded.get(&wanted[i]) {
                Some(flag) => Some(*flag),
                None => None,
            };
            let now: Option<bool> = match fresh.get(&wanted[i]) {
                Some(flag) => Some(*flag),
                None => None,
            };
            let same = match (installed, now) {
                (Some(a), Some(b)) => a == b,
                (None, None) => true,
                _ => false,
            };
            if !same {
                assert(opt_get(self@.installed, ids_of(active@)[i as int]) != opt_get(
                    fresh@,
                    ids_of(active@)[i as int],
                ));
                return false;
            }
            i += 1;
        }
        true
    }

    fn keep_detector_states(&mut self, outgoing: &Vec<PersistedDuckState>)
        ensures
            final(self)@ == taken_down(old(self)@, outgoing@),
    {
        let engine = self.engine.take();
        if let Some(tapped) = engine {
            add_slot_states(&mut self.ducking_state, &tapped, outgoing);
        }
    }

    /// Compares the running engine with the processes that are to be tapped, and says
    /// what to do about it. `outgoing` holds the detector states of the running engine,
    /// slot by slot. While a rebuild is under way nothing more is started.
    pub fn reconcile_engine(
        &mut self,
        processes: &Vec<AudioProcessInfo>,
        now: u64,
        outgoing: &Vec<PersistedDuckState>,
    ) -> (action: EngineAction)
        ensures
            ({
                let found = active(old(self)@, processes@, now);
                &&& final(self)@ == reconciled(old(self)@, found, outgoing@)
                &&& match action {
                    EngineAction::Keep => is_up_to_date(old(self)@, found) || old(
                        self,
                    )@.pending is Some,
                    EngineAction::TearDown => {
                        &&& !is_up_to_date(old(self)@, found) && old(self)@.pending is None
                        &&& found.len() == 0
                    },
                    EngineAction::Rebuild(plan) => {
                        &&& !is_up_to_date(old(self)@, found) && old(self)@.pending is None
                        &&& found.len() > 0
                        &&& plan.generation == final(self)@.rebuild_generation
                        &&& planned_views(plan.taps@) == planned_taps(final(self)@, found)
                    },
                }
            }),
    {
        let active = self.active_processes(processes, now);
        let wanted = ids_for(&active);
        if self.up_to_date(&active, &wanted) || self.pending_rebuild_target.is_some() {
            return EngineAction::Keep;
        }
        self.keep_detector_states(outgoing);
        if active.len() == 0 {
            self.installed_duck_excluded = NameMap::new();
            return EngineAction::TearDown;
        }
        let ghost down = self@;
        let ghost ids = ids_of(active@);
        let mut i: usize = 0;
        assert(ids.take(0) =~= Seq::<Seq<char>>::empty());
        while i < wanted.len()
            invariant
                i <= wanted@.len(),
                ids == texts(wanted@),
                self@ == (MacosView {
                    gain_state: gains_added(down.gain_state, ids.take(i as int)),
                    ..down
                }),
            decreases wanted@.len() - i,
        {
            proof {
                assert(ids.take(i + 1).drop_last() == ids.take(i as int));
                assert(ids.take(i + 1).last() == wanted@[i as int]@);
            }
            if !self.gain_state.contains(&wanted[i]) {
                self.gain_state.insert(&wanted[i], AppGainState::default_full_volume());
            }
            i += 1;
        }
        assert(ids.take(i as int) == ids);
        self.rebuild_generation = self.rebuild_generation.wrapping_add(1);
        self.pending_rebuild_target = Some(copy_names(&wanted));
        let mut taps: Vec<PlannedTap> = Vec::new();
        let mut j: usize = 0;
        proof {
            lemma_gains_added(down.gain_state, ids);
        }
        while j < active.len()
            invariant
                j <= active@.len(),
                ids == ids_of(active@),
                ids == texts(wanted@),
                wanted@.len() == active@.len(),
                forall|k: int|
                    0 <= k < ids.len() ==> self@.gain_state.dom().contains(#[trigger] ids[k]),
                taps@.len() == j,
                forall|k: int|
                    0 <= k < j ==> (#[trigger] taps@[k])@ == planned_taps(self@, active@)[k],
            decreases active@.len() - j,
        {
            assert(ids[j as int] == wanted@[j as int]@);
            let id: &String = &wanted[j];
            let gain: AppGainState = match self.gain_state.get(id) {
                Some(gain) => *gain,
                None => AppGainState::default_full_volume(),
            };
            let persisted: PersistedDuckState = match self.ducking_state.get(id) {
                Some(state) => *state,
                None => PersistedDuckState { speech_run: 0, silence_run: 0, is_triggering: false },
            };
            let tap = PlannedTap {
                object_id: active[j].object_id,
                session_id: id.clone(),
                gain,
                excluded: self.excluded(active[j].pid),
                persisted,
            };
            assert(tap@ =~= planned_taps(self@, active@)[j as int]);
            taps.push(tap);
            j += 1;
        }
        assert(planned_views(taps@) =~= planned_taps(self@, active@));
        EngineAction::Rebuild(RebuildPlan { generation: self.rebuild_generation, taps })
    }

    /// Ends a rebuild. Unless another one was started meanwhile, an engine that was
    /// built becomes the running one, and gets the gains that are set by now.
    pub fn finish_rebuild(&mut self, plan: &RebuildPlan, built: bool) -> (outcome: RebuildOutcome)
        ensures
            final(self)@ == rebuilt(old(self)@, plan.generation, planned_views(plan.taps@), built),
            match outcome {
                RebuildOutcome::Superseded => old(self)@.rebuild_generation != plan.generation,
                RebuildOutcome::Failed => old(self)@.rebuild_generation == plan.generation
                    && !built,
                RebuildOutcome::Installed(updates) => {
                    &&& old(self)@.rebuild_generation == plan.generation && built
                    &&& are_gain_updates(
                        old(self)@.gain_state,
                        planned_ids(planned_views(plan.taps@)),
                        updates@,
                    )
                },
            },
    {
        if self.rebuild_generation != plan.generation {
            return RebuildOutcome::Superseded;
        }
        self.pending_rebuild_target = None;
        if !built {
            return RebuildOutcome::Failed;
        }
        let ghost views = planned_views(plan.taps@);
        let mut tapped: Vec<String> = Vec::new();
        let mut installed: NameMap<bool> = NameMap::new();
        let mut i: usize = 0;
        assert(views.take(0) =~= Seq::<PlannedTapView>::empty());
        while i < plan.taps.len()
            invariant
                i <= plan.taps@.len(),
                views == planned_views(plan.taps@),
                tapped@.len() == i,
                forall|k: int| 0 <= k < i ==> (#[trigger] tapped@[k])@ == views[k].session_id,
                installed@ == planned_exclusions(views.take(i as int)),
            decreases plan.taps@.len() - i,
        {
            proof {
                assert(views.take(i + 1).drop_last() == views.take(i as int));
                assert(views.take(i + 1).last() == plan.taps@[i as int]@);
            }
            tapped.push(plan.taps[i].session_id.clone());
            installed.insert(&plan.taps[i].session_id, plan.taps[i].excluded);
            i += 1;
        }
        assert(views.take(i as int) == views);
        assert(texts(tapped@) =~= planned_ids(views));
        let updates = self.gain_updates(&tapped);
        self.engine = Some(tapped);
        self.installed_duck_excluded = installed;
        RebuildOutcome::Installed(updates)
    }

    fn gain_updates(&self, tapped: &Vec<String>) -> (updates: Vec<(usize, AppGainState)>)
        ensures
            are_gain_updates(self@.gain_state, texts(tapped@), updates@),
    {
        let ghost ids = texts(tapped@);
        let mut updates: Vec<(usize, AppGainState)> = Vec::new();
        let mut i: usize = 0;
        while i < tapped.len()
            invariant
                i <= tapped@.len(),
                ids == texts(tapped@),
                forall|k: int|
                    0 <= k < updates@.len() ==> {
                        let (slot, gain) = #[trigger] updates@[k];
                        &&& slot < ids.len()
                        &&& slot_of(ids, ids[slot as int]) == Some(slot as int)
                        &&& self@.gain_state.dom().contains(ids[slot as int])
                        &&& gain == self@.gain_state[ids[slot as int]]
                    },
                forall|j: int|
                    0 <= j < i && slot_of(ids, #[trigger] ids[j]) == Some(j)
                        && self@.gain_state.dom().contains(ids[j]) ==> exists|k: int|
                        0 <= k < updates@.len() && (#[trigger] updates@[k]).0 == j,
            decreases tapped@.len() - i,
        {
            let ghost before = updates@;
            assert(ids[i as int] == tapped@[i as int]@);
            let is_own = match find_slot(tapped, &tapped[i]) {
                Some(slot) => slot == i,
                None => false,
            };
            if is_own {
                if let Some(gain) = self.gain_state.get(&tapped[i]) {
                    updates.push((i, *gain));
                    assert(updates@[before.len() as int].0 == i);
                }
            }
            proof {
                assert forall|j: int|
                    0 <= j < i + 1 && slot_of(ids, #[trigger] ids[j]) == Some(j)
                        && self@.gain_state.dom().contains(ids[j]) implies exists|k: int|
                    0 <= k < updates@.len() && (#[trigger] updates@[k]).0 == j by {
                    if j < i {
                        let k = choose|k: int| 0 <= k < before.len() && (#[trigger] before[k]).0 == j;
                        assert(updates@[k].0 == j);
                    }
                }
            }
            i += 1;
        }
        updates
    }

    /// Takes the engine down for good.
    pub fn shutdown(&mut self)
        ensures
            final(self)@ == (MacosView { engine: None, ..old(self)@ }),
    {
        self.engine = None;
    }
}

proof fn lemma_gains_added(gains: Map<Seq<char>, AppGainState>, ids: Seq<Seq<char>>)
    ensures
        forall|k: int|
            0 <= k < ids.len() ==> gains_added(gains, ids).dom().contains(#[trigger] ids[k]),
        forall|id: Seq<char>|
            gains.dom().contains(id) ==> #[trigger] gains_added(gains, ids).dom().contains(id)
                && gains_added(gains, ids)[id] == gains[id],
    decreases ids.len(),
{
    if ids.len() > 0 {
        let init = ids.drop_last();
        lemma_gains_added(gains, init);
        assert forall|k: int| 0 <= k < ids.len() implies gains_added(gains, ids).dom().contains(
            #[trigger] ids[k],
        ) by {
            if k < init.len() {
                assert(init[k] == ids[k]);
            }
        }
        assert forall|id: Seq<char>| gains.dom().contains(id) implies #[trigger] gains_added(
            gains,
            ids,
        ).dom().contains(id) && gains_added(gains, ids)[id] == gains[id] by {
            assert(gains_added(gains, init).dom().contains(id));
        }
    }
}

/// What a change of a session comes to: the new count of changes, and the gains with
/// the slot to set them in, if the session is tapped.
#[derive(Clone, Copy, Debug, PartialEq, Eq, Structural)]
pub struct GainChange {
    pub generation: u64,
    pub gain: AppGainState,
    pub slot: Option<usize>,
}

/// Whether `change` is what setting `gain` for a session comes to.
pub open spec fn is_change(
    state: MacosView,
    id: Seq<char>,
    gain: AppGainState,
    change: GainChange,
) -> bool {
    &&& change.gain == gain
    &&& change.generation == gain.generation
    &&& match change.slot {
        Some(slot) => state.engine is Some && slot_of(tapped_ids(state), id) == Some(slot as int),
        None => state.engine is None || slot_of(tapped_ids(state), id) is None,
    }
}

impl MacosMixerBackend {
    fn slot_for(&self, session_id: &str) -> (slot: Option<usize>)
        ensures
            match slot {
                Some(slot) => self@.engine is Some && slot_of(tapped_ids(self@), session_id@)
                    == Some(slot as int),
                None => self@.engine is None || slot_of(tapped_ids(self@), session_id@) is None,
            },
    {
        match &self.engine {
            Some(tapped) => find_slot(tapped, session_id),
            None => None,
        }
    }

    /// Sets the volume of a session.
    pub fn set_volume(&mut self, session_id: &str, volume: Level) -> (result: Result<
        GainChange,
        MixerError,
    >)
        ensures
            match result {
                Ok(change) => {
                    let gain = volume_set(old(self)@.gain_state[session_id@], volume);
                    &&& old(self)@.gain_state.dom().contains(session_id@)
                    &&& is_change(old(self)@, session_id@, gain, change)
                    &&& final(self)@ == (MacosView {
                        gain_state: old(self)@.gain_state.insert(session_id@, gain),
                        ..old(self)@
                    })
                },
                Err(e) => {
                    &&& !old(self)@.gain_state.dom().contains(session_id@)
                    &&& e@ == MixerErrorView::SessionNotFound(session_id@)
                    &&& final(self)@ == old(self)@
                },
            },
    {
        let mut gain: AppGainState = match self.gain_state.get(session_id) {
            Some(gain) => *gain,
            None => return Err(session_not_found(session_id)),
        };
        let generation: u64 = gain.set_volume(volume);
        let slot = self.slot_for(session_id);
        self.gain_state.insert(session_id, gain);
        Ok(GainChange { generation, gain, slot })
    }

    /// Mutes or unmutes a session.
    pub fn set_muted(&mut self, session_id: &str, muted: bool) -> (result: Result<
        GainChange,
        MixerError,
    >)
        ensures
            match result {
                Ok(change) => {
                    let gain = muted_set(old(self)@.gain_state[session_id@], muted);
                    &&& old(self)@.gain_state.dom().contains(session_id@)
                    &&& is_change(old(self)@, session_id@, gain, change)
                    &&& final(self)@ == (MacosView {
                        gain_state: old(self)@.gain_state.insert(session_id@, gain),
                        ..old(self)@
                    })
                },
                Err(e) => {
                    &&& !old(self)@.gain_state.dom().contains(session_id@)
                    &&& e@ == MixerErrorView::SessionNotFound(session_id@)
                    &&& final(self)@ == old(self)@
                },
            },
    {
        let mut gain: AppGainState = match self.gain_state.get(session_id) {
            Some(gain) => *gain,
            None => return Err(session_not_found(session_id)),
        };
        let generation: u64 = gain.set_muted(muted);
        let slot = self.slot_for(session_id);
        self.gain_state.insert(session_id, gain);
        Ok(GainChange { generation, gain, slot })
    }

    /// Sets the balance of a session.
    pub fn set_balance(&mut self, session_id: &str, balance: Level) -> (result: Result<
        GainChange,
        MixerError,
    >)
        ensures
            match result {
                Ok(change) => {
                    let gain = balance_set(old(self)@.gain_state[session_id@], balance);
                    &&& old(self)@.gain_state.dom().contains(session_id@)
                    &&& is_change(old(self)@, session_id@, gain, change)
                    &&& final(self)@ == (MacosView {
                        gain_state: old(self)@.gain_state.insert(session_id@, gain),
                        ..old(self)@
                    })
                },
                Err(e) => {
                    &&& !old(self)@.gain_state.dom().contains(session_id@)
                    &&& e@ == MixerErrorView::SessionNotFound(session_id@)
                    &&& final(self)@ == old(self)@
                },
            },
    {
        let mut gain: AppGainState = match self.gain_state.get(session_id) {
            Some(gain) => *gain,
            None => return Err(session_not_found(session_id)),
        };
        let generation: u64 = gain.set_balance(balance);
        let slot = self.slot_for(session_id);
        self.gain_state.insert(session_id, gain);
        Ok(GainChange { generation, gain, slot })
    }

    /// The highest volume, in percent, that a session can be set to.
    pub fn max_volume_percent(&self) -> (percent: u32)
        ensures
            percent == 150,
    {
        150
    }

    /// A copy of the auto-duck settings.
    pub fn get_ducking_settings(&self) -> (settings: DuckingSettings)
        ensures
            settings@ == self@.settings,
    {
        self.ducking_settings.clone()
    }

    /// Turns auto-duck on or off. The result says whether to look for running
    /// communication applications to start out with.
    pub fn set_ducking_enabled(&mut self, enabled: bool) -> (should_seed: bool)
        ensures
            final(self)@ == (MacosView {
                settings: SettingsView { enabled: enabled, ..old(self)@.settings },
                ..old(self)@
            }),
            should_seed == asks_for_triggers(old(self)@.settings, enabled),
    {
        set_enabled(&mut self.ducking_settings, enabled)
    }

    /// Makes the communication applications among the running ones triggers.
    pub fn seed_triggers(&mut self, running_names: &Vec<String>)
        ensures
            final(self)@ == (MacosView {
                settings: SettingsView {
                    priority_triggers: old(self)@.settings.priority_triggers + running_well_known(
                        well_known_names(),
                        texts(running_names@),
                    ),
                    ..old(self)@.settings
                },
                ..old(self)@
            }),
    {
        seed_communication_apps(&mut self.ducking_settings, running_names);
    }

    /// Lets an application trigger ducking, or no longer.
    pub fn set_duck_trigger_priority(&mut self, display_name: &str, is_priority: bool)
        ensures
            final(self)@ == (MacosView {
                settings: toggled(old(self)@.settings, display_name@, is_priority),
                ..old(self)@
            }),
    {
        toggle_priority_trigger(&mut self.ducking_settings, display_name, is_priority);
    }
}

} // verus!
