//! What holds of the sessions and of the engine on macOS.

use vstd::prelude::*;

use crate::duck_detect::{ducked_volume, PersistedDuckState};
use crate::gain::AppGainState;
use crate::macos::{
    are_gain_updates, exclusions, hold_of, ids_of, is_excluded, is_up_to_date, is_wanted,
    law_tap_session_ids_differ, lemma_slot_of_some, noted, opt_get, planned_exclusions, planned_ids,
    planned_taps, rebuilt, reconciled, slot_of, slot_states, tap_session_id, AppInfoView,
    AudioProcessInfo, MacosView, PlannedTapView, ACTIVE_HOLD_NANOS,
};
use crate::macos_listing::{
    anyone_talking, is_talking, listed_state, other_process, pids_in, processes_in,
    processes_listed, shown_duck_states, ProcessReading,
};
use crate::name_map::name_set;
use crate::seqs::lemma_filter_members;
use crate::session::{SessionView, SettingsView};

verus! {

/// Whether a process is shown at all: it is not hidden, and something is set for it.
pub open spec fn is_visible(gains: Map<Seq<char>, AppGainState>, reading: ProcessReading) -> bool {
    !reading.hidden && gains.dom().contains(tap_session_id(reading.process.pid))
}

/// Whether a row is that of a process: it shows what is set for the process, triggers if
/// the process talks, and is ducked if somebody else does.
pub open spec fn shows(
    row: SessionView,
    gains: Map<Seq<char>, AppGainState>,
    states: Map<Seq<char>, PersistedDuckState>,
    reading: ProcessReading,
) -> bool {
    let id = tap_session_id(reading.process.pid);
    let ducked = anyone_talking(states) && !is_talking(states, id);
    &&& row.id == id
    &&& row.volume == gains[id].volume
    &&& row.muted == gains[id].muted
    &&& row.balance == gains[id].balance
    &&& row.write_generation == gains[id].generation
    &&& row.is_active == reading.process.is_running_output
    &&& row.is_duck_trigger == is_talking(states, id)
    &&& row.is_ducked == ducked
    &&& row.effective_volume == if ducked {
        ducked_volume(gains[id].volume)
    } else {
        gains[id].volume
    }
}

/// Every row is that of a visible process. It shows what the user has set for it, ducked
/// or not, and never both triggers ducking and is ducked.
pub proof fn law_every_row_shows_a_process(
    state: MacosView,
    states: Map<Seq<char>, PersistedDuckState>,
    readings: Seq<ProcessReading>,
    k: int,
)
    requires
        0 <= k < processes_listed(state, states, readings).rows.len(),
    ensures
        ({
            let row = processes_listed(state, states, readings).rows[k];
            &&& !(row.is_duck_trigger && row.is_ducked)
            &&& exists|i: int|
                0 <= i < readings.len() && is_visible(state.gain_state, #[trigger] readings[i])
                    && shows(row, state.gain_state, states, readings[i])
        }),
    decreases readings.len(),
{
    let init = readings.drop_last();
    let before = processes_listed(state, states, init).rows;
    let row = processes_listed(state, states, readings).rows[k];
    if k < before.len() {
        law_every_row_shows_a_process(state, states, init, k);
        let i = choose|i: int|
            0 <= i < init.len() && is_visible(state.gain_state, #[trigger] init[i]) && shows(
                row,
                state.gain_state,
                states,
                init[i],
            );
        assert(readings[i] == init[i]);
    } else {
        let i = readings.len() - 1;
        assert(is_visible(state.gain_state, readings[i]));
        assert(shows(row, state.gain_state, states, readings[i]));
    }
}

/// Every visible process has a row.
pub proof fn law_every_visible_process_is_shown(
    state: MacosView,
    states: Map<Seq<char>, PersistedDuckState>,
    readings: Seq<ProcessReading>,
    i: int,
)
    requires
        0 <= i < readings.len(),
        is_visible(state.gain_state, readings[i]),
    ensures
        exists|k: int|
            0 <= k < processes_listed(state, states, readings).rows.len() && shows(
                #[trigger] processes_listed(state, states, readings).rows[k],
                state.gain_state,
                states,
                readings[i],
            ),
    decreases readings.len(),
{
    let init = readings.drop_last();
    let before = processes_listed(state, states, init).rows;
    let rows = processes_listed(state, states, readings).rows;
    if i < init.len() {
        law_every_visible_process_is_shown(state, states, init, i);
        let k = choose|k: int|
            0 <= k < before.len() && shows(
                #[trigger] before[k],
                state.gain_state,
                states,
                init[i],
            );
        assert(rows[k] == before[k]);
        assert(shows(rows[k], state.gain_state, states, readings[i]));
    } else {
        assert(shows(rows[before.len() as int], state.gain_state, states, readings[i]));
    }
}

/// What is set for one process changes nothing for another one.
pub proof fn law_processes_are_independent(
    gains: Map<Seq<char>, AppGainState>,
    pid: i32,
    gain: AppGainState,
    other: i32,
)
    requires
        other != pid,
    ensures
        opt_get(gains.insert(tap_session_id(pid), gain), tap_session_id(other)) == opt_get(
            gains,
            tap_session_id(other),
        ),
{
    law_tap_session_ids_differ(pid, other);
}

/// While ducking is off, nobody is ducked.
pub proof fn law_no_process_is_ducked_while_off(
    state: MacosView,
    engine_states: Seq<PersistedDuckState>,
    readings: Seq<ProcessReading>,
    k: int,
)
    requires
        !state.settings.enabled,
        0 <= k < processes_listed(
            state,
            shown_duck_states(state, engine_states),
            readings,
        ).rows.len(),
    ensures
        !processes_listed(
            state,
            shown_duck_states(state, engine_states),
            readings,
        ).rows[k].is_ducked,
{
    let states = shown_duck_states(state, engine_states);
    law_every_row_shows_a_process(state, states, readings, k);
    assert(!anyone_talking(states));
}

/// Nothing is remembered of a process that was not seen.
pub proof fn law_gone_processes_are_forgotten(
    state: MacosView,
    app_info: Map<i32, AppInfoView>,
    settings: SettingsView,
    readings: Seq<ProcessReading>,
    pid: i32,
)
    requires
        forall|i: int| 0 <= i < readings.len() ==> (#[trigger] readings[i]).process.pid != pid,
    ensures
        ({
            let id = tap_session_id(pid);
            let after = listed_state(state, app_info, settings, readings);
            &&& !after.app_info.dom().contains(pid)
            &&& !after.hidden.dom().contains(pid)
            &&& !after.gain_state.dom().contains(id)
            &&& !after.ducking_state.dom().contains(id)
            &&& !after.hold.dom().contains(id)
        }),
{
    let id = tap_session_id(pid);
    let ids = ids_of(processes_in(readings));
    let pids = pids_in(readings);
    if pids.contains(pid) {
        let i = choose|i: int| 0 <= i < pids.len() && pids[i] == pid;
        assert(readings[i].process.pid == pid);
    }
    if ids.contains(id) {
        let i = choose|i: int| 0 <= i < ids.len() && ids[i] == id;
        assert(ids[i] == tap_session_id(readings[i].process.pid));
        law_tap_session_ids_differ(readings[i].process.pid, pid);
    }
}

/// This program itself is never among the processes that are looked at, so that it is
/// never tapped.
pub proof fn law_own_process_is_left_out(processes: Seq<AudioProcessInfo>, own_pid: i32, i: int)
    requires
        0 <= i < processes.filter(other_process(own_pid)).len(),
    ensures
        processes.filter(other_process(own_pid))[i].pid != own_pid,
{
    let others = processes.filter(other_process(own_pid));
    lemma_filter_members(processes, other_process(own_pid));
    assert(others.contains(others[i]));
}

proof fn lemma_noted_hold(state: MacosView, processes: Seq<AudioProcessInfo>, now: u64, i: int)
    requires
        0 <= i < processes.len(),
        processes[i].is_running_output,
    ensures
        hold_of(noted(state, processes, now).hold, tap_session_id(processes[i].pid)) == Some(
            (now + ACTIVE_HOLD_NANOS) as u64,
        ),
    decreases processes.len(),
{
    let init = processes.drop_last();
    if i < init.len() {
        lemma_noted_hold(state, init, now, i);
    }
}

/// A process that was making sound stays wanted for a while though it says that it has
/// stopped, and no longer than that.
pub proof fn law_wanted_while_held(
    state: MacosView,
    processes: Seq<AudioProcessInfo>,
    now: u64,
    i: int,
    later: u64,
)
    requires
        now + ACTIVE_HOLD_NANOS <= u64::MAX,
        0 <= i < processes.len(),
        processes[i].is_running_output,
    ensures
        is_wanted(
            false,
            hold_of(noted(state, processes, now).hold, tap_session_id(processes[i].pid)),
            later,
        ) <==> later < now + ACTIVE_HOLD_NANOS,
{
    lemma_noted_hold(state, processes, now, i);
}

proof fn lemma_exclusions(state: MacosView, processes: Seq<AudioProcessInfo>)
    ensures
        forall|i: int|
            0 <= i < processes.len() ==> opt_get(
                exclusions(state, processes),
                tap_session_id((#[trigger] processes[i]).pid),
            ) == Some(is_excluded(state, processes[i].pid)),
    decreases processes.len(),
{
    if processes.len() > 0 {
        let init = processes.drop_last();
        lemma_exclusions(state, init);
        assert forall|i: int| 0 <= i < processes.len() implies opt_get(
            exclusions(state, processes),
            tap_session_id((#[trigger] processes[i]).pid),
        ) == Some(is_excluded(state, processes[i].pid)) by {
            if i < init.len() {
                assert(init[i] == processes[i]);
                if processes[i].pid != processes.last().pid {
                    law_tap_session_ids_differ(processes[i].pid, processes.last().pid);
                }
            }
        }
    }
}

proof fn lemma_planned_exclusions(
    state: MacosView,
    processes: Seq<AudioProcessInfo>,
    taps: Seq<PlannedTapView>,
)
    requires
        taps.len() == processes.len(),
        forall|i: int|
            0 <= i < taps.len() ==> {
                let tap = #[trigger] taps[i];
                &&& tap.session_id == tap_session_id(processes[i].pid)
                &&& tap.excluded == is_excluded(state, processes[i].pid)
            },
    ensures
        planned_exclusions(taps) == exclusions(state, processes),
        planned_ids(taps) == ids_of(processes),
    decreases taps.len(),
{
    assert(planned_ids(taps) =~= ids_of(processes));
    if taps.len() > 0 {
        let init = taps.drop_last();
        assert forall|i: int| 0 <= i < init.len() implies {
            let tap = #[trigger] init[i];
            &&& tap.session_id == tap_session_id(processes.drop_last()[i].pid)
            &&& tap.excluded == is_excluded(state, processes.drop_last()[i].pid)
        } by {
            assert(init[i] == taps[i]);
        }
        lemma_planned_exclusions(state, processes.drop_last(), init);
        assert(taps.last() == taps[taps.len() - 1]);
    }
}

/// An engine that was rebuilt for some processes is the right one for them: as long as
/// nothing changes, it is not rebuilt again.
pub proof fn law_rebuilt_engine_is_up_to_date(
    state: MacosView,
    active: Seq<AudioProcessInfo>,
    outgoing: Seq<PersistedDuckState>,
)
    requires
        !is_up_to_date(state, active),
        state.pending is None,
        active.len() > 0,
    ensures
        ({
            let started = reconciled(state, active, outgoing);
            let taps = planned_taps(started, active);
            let done = rebuilt(started, started.rebuild_generation, taps, true);
            &&& is_up_to_date(done, active)
            &&& forall|later: Seq<PersistedDuckState>| #[trigger]
                reconciled(done, active, later) == done
        }),
{
    let started = reconciled(state, active, outgoing);
    let taps = planned_taps(started, active);
    let done = rebuilt(started, started.rebuild_generation, taps, true);
    lemma_planned_exclusions(done, active, taps);
}

/// While a rebuild is under way, no other one is started and nothing is taken down.
pub proof fn law_one_rebuild_at_a_time(
    state: MacosView,
    active: Seq<AudioProcessInfo>,
    later: Seq<AudioProcessInfo>,
    outgoing: Seq<PersistedDuckState>,
)
    requires
        !is_up_to_date(state, active),
        active.len() > 0,
    ensures
        ({
            let started = reconciled(state, active, outgoing);
            reconciled(started, later, outgoing) == started
        }),
{
}

/// A rebuild that is not the latest one leaves everything as it is.
pub proof fn law_superseded_rebuild_changes_nothing(
    state: MacosView,
    generation: u64,
    taps: Seq<PlannedTapView>,
    built: bool,
)
    requires
        generation != state.rebuild_generation,
    ensures
        rebuilt(state, generation, taps, built) == state,
{
}

/// A rebuild that failed can be tried again.
pub proof fn law_failed_rebuild_may_be_retried(
    state: MacosView,
    active: Seq<AudioProcessInfo>,
    outgoing: Seq<PersistedDuckState>,
)
    requires
        !is_up_to_date(state, active),
        state.pending is None,
        active.len() > 0,
    ensures
        ({
            let started = reconciled(state, active, outgoing);
            let taps = planned_taps(started, active);
            let failed = rebuilt(started, started.rebuild_generation, taps, false);
            &&& failed.pending is None
            &&& !is_up_to_date(failed, active)
        }),
{
    let started = reconciled(state, active, outgoing);
    let failed = rebuilt(started, started.rebuild_generation, planned_taps(started, active), false);
    let wanted = ids_of(active);
    assert(wanted.contains(wanted[0]));
    assert(name_set(wanted).contains(wanted[0]));
    assert(!name_set(Seq::<Seq<char>>::empty()).contains(wanted[0]));
}

/// What is set for a session while an engine is being built reaches the new engine.
pub proof fn law_gains_reach_the_new_engine(
    gains: Map<Seq<char>, AppGainState>,
    tapped: Seq<Seq<char>>,
    updates: Seq<(usize, AppGainState)>,
    id: Seq<char>,
)
    requires
        are_gain_updates(gains, tapped, updates),
        tapped.contains(id),
        gains.dom().contains(id),
    ensures
        exists|k: int|
            0 <= k < updates.len() && slot_of(tapped, id) == Some(
                (#[trigger] updates[k]).0 as int,
            ) && updates[k].1 == gains[id],
{
    lemma_slot_of_some(tapped, id);
    let at = choose|at: int| 0 <= at < tapped.len() && tapped[at] == id;
    assert(tapped[at] == id);
    let slot = slot_of(tapped, id).unwrap();
    assert(tapped[slot] == id);
    let k = choose|k: int| 0 <= k < updates.len() && (#[trigger] updates[k]).0 == slot;
    assert(updates[k].1 == gains[tapped[slot]]);
}

/// A process whose name turns out to be that of a trigger does not stay kept from being
/// one: the engine that excludes it is no longer the right one.
pub proof fn law_resolved_trigger_is_let_in(
    state: MacosView,
    active: Seq<AudioProcessInfo>,
    i: int,
    name: Seq<char>,
    icon: Option<Seq<u8>>,
)
    requires
        is_up_to_date(state, active),
        0 <= i < active.len(),
        state.app_info.dom().contains(active[i].pid),
        state.app_info[active[i].pid] is Pending,
        state.settings.priority_triggers.contains(name),
    ensures
        ({
            let resolved = MacosView {
                app_info: state.app_info.insert(
                    active[i].pid,
                    AppInfoView::Resolved(name, icon),
                ),
                ..state
            };
            !is_up_to_date(resolved, active)
        }),
{
    let pid = active[i].pid;
    let resolved = MacosView {
        app_info: state.app_info.insert(pid, AppInfoView::Resolved(name, icon)),
        ..state
    };
    lemma_exclusions(state, active);
    lemma_exclusions(resolved, active);
    let wanted = ids_of(active);
    assert(wanted[i] == tap_session_id(pid));
    assert(is_excluded(state, pid));
    assert(!is_excluded(resolved, pid));
}

/// A rebuild does not start any detector over: each tap goes on from what the detector of
/// its session had come to in the engine before.
pub proof fn law_rebuild_keeps_detector_states(
    state: MacosView,
    active: Seq<AudioProcessInfo>,
    outgoing: Seq<PersistedDuckState>,
    i: int,
    slot: int,
)
    requires
        !is_up_to_date(state, active),
        state.pending is None,
        0 <= i < active.len(),
        state.engine is Some,
        slot_of(state.engine.unwrap(), tap_session_id(active[i].pid)) == Some(slot),
        slot < outgoing.len(),
    ensures
        planned_taps(reconciled(state, active, outgoing), active)[i].persisted == outgoing[slot],
{
    let id = tap_session_id(active[i].pid);
    let states = slot_states(state.engine.unwrap(), outgoing);
    assert(states.dom().contains(id));
    assert(states[id] == outgoing[slot]);
}

/// While the engine is being rebuilt, a session that was talking is still shown to talk.
pub proof fn law_talking_is_shown_during_a_rebuild(
    state: MacosView,
    active: Seq<AudioProcessInfo>,
    outgoing: Seq<PersistedDuckState>,
    id: Seq<char>,
)
    requires
        !is_up_to_date(state, active),
        state.pending is None,
        active.len() > 0,
        state.engine is Some,
        is_talking(shown_duck_states(state, outgoing), id),
    ensures
        is_talking(
            shown_duck_states(reconciled(state, active, outgoing), Seq::empty()),
            id,
        ),
{
}

} // verus!
