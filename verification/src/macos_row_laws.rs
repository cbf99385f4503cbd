//! What a look at the processes on macOS shows, remembers and does about the engine, process
//! by process.

use vstd::prelude::*;

use crate::duck_detect::PersistedDuckState;
use crate::gain::AppGainState;
use crate::level::Level;
use crate::macos::{
    active, are_gain_updates, exclusions, gains_added, ids_of, initial_state, is_change,
    is_excluded, is_up_to_date, law_tap_session_ids_differ, lemma_slot_of_some, noted, opt_get,
    planned_exclusions, planned_ids, planned_taps, rebuilt, reconciled, slot_of, slot_states,
    tap_session_id, tappable, tapped_ids, AppInfoCacheEntry, AppInfoView, AudioProcessInfo,
    GainChange, MacosMixerBackend, MacosView, PlannedTap, PlannedTapView,
};
use crate::macos_listing::{
    anyone_talking, info_taken, is_talking, listed_state, other_process, pid_set, pids_in, processes_in,
    processes_listed, resolve_views, shown_duck_states, shown_info, ProcessReading,
};
use crate::name_map::name_set;
use crate::seqs::{lemma_filter_members, lemma_push_members};
use crate::session::{icon_is_new, opt_bytes, opt_text, SessionView, SettingsView};
use crate::text::signed_decimal;

verus! {

/// Whether an application is talking, as far as is known.
pub open spec fn talks(states: Map<Seq<char>, PersistedDuckState>, id: Seq<char>) -> bool {
    states.dom().contains(id) && states[id].is_triggering
}

/// Whether a process has a row: it is not hidden, and it has made sound before.
pub open spec fn has_row(state: MacosView, reading: ProcessReading) -> bool {
    !reading.hidden && state.gain_state.dom().contains(tap_session_id(reading.process.pid))
}

/// How many of the readings have a row.
pub open spec fn row_count(state: MacosView, readings: Seq<ProcessReading>) -> nat
    decreases readings.len(),
{
    if readings.len() == 0 {
        0
    } else {
        row_count(state, readings.drop_last()) + if has_row(state, readings.last()) {
            1nat
        } else {
            0
        }
    }
}

/// What the row of a process says, given what is remembered of it.
pub open spec fn tells(
    row: SessionView,
    state: MacosView,
    states: Map<Seq<char>, PersistedDuckState>,
    reading: ProcessReading,
) -> bool {
    let pid = reading.process.pid;
    let id = tap_session_id(pid);
    let gain = state.gain_state[id];
    let somebody = exists|other: Seq<char>| #[trigger] talks(states, other);
    &&& row.id == id
    &&& (row.volume, row.muted, row.balance) == (gain.volume, gain.muted, gain.balance)
    &&& row.write_generation == gain.generation
    &&& row.is_active == reading.process.is_running_output
    &&& row.is_duck_trigger == talks(states, id)
    &&& row.is_ducked == (somebody && !talks(states, id))
    // Ducked means times 0.22.
    &&& row.is_ducked ==> row.effective_volume == row.volume.scaled(Level { bits: 0x3e61_47ae })
    &&& !row.is_ducked ==> row.effective_volume == row.volume
    &&& row.output_device_id is None
    &&& match opt_info(state.app_info, pid) {
        Some(AppInfoView::Resolved(name, icon)) => (row.display_name, row.icon_png) == (name, icon),
        _ => row.display_name == "pid "@ + signed_decimal(pid as int) && row.icon_png is None,
    }
}

/// What is known of the name and icon of a process.
pub open spec fn opt_info(app_info: Map<i32, AppInfoView>, pid: i32) -> Option<AppInfoView> {
    if app_info.dom().contains(pid) {
        Some(app_info[pid])
    } else {
        None
    }
}

/// Names that are being looked for may be added; nothing else changes.
proof fn lemma_infos(
    state: MacosView,
    states: Map<Seq<char>, PersistedDuckState>,
    readings: Seq<ProcessReading>,
)
    ensures
        forall|pid: i32| #[trigger]
            state.app_info.dom().contains(pid) ==> processes_listed(
                state,
                states,
                readings,
            ).app_info.dom().contains(pid) && processes_listed(state, states, readings).app_info[pid]
                == state.app_info[pid],
        forall|pid: i32| #[trigger]
            processes_listed(state, states, readings).app_info.dom().contains(pid)
                && !state.app_info.dom().contains(pid) ==> processes_listed(
                state,
                states,
                readings,
            ).app_info[pid] is Pending && exists|i: int|
                0 <= i < readings.len() && has_row(state, #[trigger] readings[i])
                    && readings[i].process.pid == pid,
        forall|i: int|
            0 <= i < readings.len() && has_row(state, #[trigger] readings[i]) ==> processes_listed(
                state,
                states,
                readings,
            ).app_info.dom().contains(readings[i].process.pid),
    decreases readings.len(),
{
    if readings.len() > 0 {
        let init = readings.drop_last();
        let before = processes_listed(state, states, init).app_info;
        let after = processes_listed(state, states, readings).app_info;
        lemma_infos(state, states, init);
        assert forall|pid: i32| #[trigger]
            after.dom().contains(pid) && !state.app_info.dom().contains(pid) implies after[pid] is Pending
            && exists|i: int|
            0 <= i < readings.len() && has_row(state, #[trigger] readings[i])
                && readings[i].process.pid == pid by {
            if before.dom().contains(pid) {
                let i = choose|i: int|
                    0 <= i < init.len() && has_row(state, #[trigger] init[i])
                        && init[i].process.pid == pid;
                assert(has_row(state, readings[i]));
            } else {
                assert(has_row(state, readings[readings.len() - 1]));
            }
        }
        assert forall|i: int|
            0 <= i < readings.len() && has_row(
                state,
                #[trigger] readings[i],
            ) implies after.dom().contains(readings[i].process.pid) by {
            if i < init.len() {
                assert(has_row(state, init[i]));
            }
        }
    }
}

/// Every process that is not hidden and has made sound has one row, in the order of the
/// readings. It shows volume, mute, balance and the count of changes as they are set; whether
/// the process makes sound, talks, and is ducked because another one talks; what is heard of
/// it; and its name and icon once they are known.
pub proof fn law_rows_show_what_is_set(
    state: MacosView,
    states: Map<Seq<char>, PersistedDuckState>,
    readings: Seq<ProcessReading>,
)
    ensures
        processes_listed(state, states, readings).rows.len() == row_count(state, readings),
        forall|i: int|
            0 <= i < readings.len() && has_row(state, #[trigger] readings[i]) ==> tells(
                processes_listed(state, states, readings).rows[row_count(
                    state,
                    readings.take(i),
                ) as int],
                state,
                states,
                readings[i],
            ),
    decreases readings.len(),
{
    if readings.len() > 0 {
        let init = readings.drop_last();
        let last = readings.last();
        let before = processes_listed(state, states, init);
        let after = processes_listed(state, states, readings);
        law_rows_show_what_is_set(state, states, init);
        lemma_infos(state, states, init);
        assert((exists|other: Seq<char>| #[trigger] talks(states, other))
            == anyone_talking(states)) by {
            if anyone_talking(states) {
                let id = choose|id: Seq<char>| #[trigger]
                    is_talking(states, id);
                assert(talks(states, id));
            }
            if exists|other: Seq<char>| #[trigger] talks(states, other) {
                let id = choose|id: Seq<char>| #[trigger] talks(states, id);
                assert(is_talking(states, id));
            }
        }
        assert forall|i: int|
            0 <= i < readings.len() && has_row(state, #[trigger] readings[i]) implies tells(
            after.rows[row_count(state, readings.take(i)) as int],
            state,
            states,
            readings[i],
        ) by {
            if i < init.len() {
                assert(init[i] == readings[i]);
                assert(init.take(i) =~= readings.take(i));
                lemma_row_count(state, init, i);
            } else {
                assert(readings.take(i) =~= init);
                assert(opt_info(before.app_info, last.process.pid) == opt_info(
                    state.app_info,
                    last.process.pid,
                ) || opt_info(before.app_info, last.process.pid) == Some(AppInfoView::Pending)
                    && opt_info(state.app_info, last.process.pid) is None);
            }
        }
    }
}

proof fn lemma_row_count(state: MacosView, readings: Seq<ProcessReading>, i: int)
    requires
        0 <= i < readings.len(),
        has_row(state, readings[i]),
    ensures
        row_count(state, readings.take(i)) < row_count(state, readings),
    decreases readings.len(),
{
    let init = readings.drop_last();
    if i < init.len() {
        assert(init.take(i) =~= readings.take(i));
        assert(init[i] == readings[i]);
        lemma_row_count(state, init, i);
    } else {
        assert(readings.take(i) =~= init);
    }
}

/// Whether no process occurs twice.
pub open spec fn distinct_readings(readings: Seq<ProcessReading>) -> bool {
    forall|i: int, j: int|
        0 <= i < j < readings.len() ==> (#[trigger] readings[i]).process.pid != (
        #[trigger] readings[j]).process.pid
}

/// Exactly the processes that have a row and whose name was neither known nor asked for are
/// asked for, with their bundle id, and count as being looked for from then on.
pub proof fn law_unknown_names_are_asked_for(
    state: MacosView,
    states: Map<Seq<char>, PersistedDuckState>,
    readings: Seq<ProcessReading>,
    pid: i32,
    bundle: Option<Seq<char>>,
)
    requires
        distinct_readings(readings),
    ensures
        ({
            let after = processes_listed(state, states, readings);
            &&& after.to_resolve.contains((pid, bundle)) <==> !state.app_info.dom().contains(pid)
                && exists|i: int|
                0 <= i < readings.len() && has_row(state, #[trigger] readings[i])
                    && readings[i].process.pid == pid && opt_text(readings[i].process.bundle_id)
                    == bundle
            &&& after.to_resolve.contains((pid, bundle)) ==> after.app_info.dom().contains(pid)
                && after.app_info[pid] is Pending
            &&& state.app_info.dom().contains(pid) ==> after.app_info.dom().contains(pid)
                && after.app_info[pid] == state.app_info[pid]
        }),
    decreases readings.len(),
{
    lemma_infos(state, states, readings);
    if readings.len() > 0 {
        let init = readings.drop_last();
        let last = readings.last();
        let before = processes_listed(state, states, init);
        let after = processes_listed(state, states, readings);
        assert(distinct_readings(init)) by {
            assert forall|a: int, b: int| 0 <= a < b < init.len() implies (
            #[trigger] init[a]).process.pid != (#[trigger] init[b]).process.pid by {
                assert(readings[a].process.pid != readings[b].process.pid);
            }
        }
        law_unknown_names_are_asked_for(state, states, init, pid, bundle);
        lemma_infos(state, states, init);
        let asked = (last.process.pid, opt_text(last.process.bundle_id));
        lemma_push_members(before.to_resolve, asked);
        assert(before.to_resolve.push(asked).contains((pid, bundle)) == (
        before.to_resolve.contains((pid, bundle)) || (pid, bundle) == asked));
        if exists|i: int|
            0 <= i < init.len() && has_row(state, #[trigger] init[i]) && init[i].process.pid == pid
                && opt_text(init[i].process.bundle_id) == bundle {
            let i = choose|i: int|
                0 <= i < init.len() && has_row(state, #[trigger] init[i]) && init[i].process.pid
                    == pid && opt_text(init[i].process.bundle_id) == bundle;
            assert(has_row(state, readings[i]));
        }
        if exists|i: int|
            0 <= i < readings.len() && has_row(state, #[trigger] readings[i])
                && readings[i].process.pid == pid && opt_text(readings[i].process.bundle_id)
                == bundle {
            let i = choose|i: int|
                0 <= i < readings.len() && has_row(state, #[trigger] readings[i])
                    && readings[i].process.pid == pid && opt_text(readings[i].process.bundle_id)
                    == bundle;
            if i < init.len() {
                assert(has_row(state, init[i]));
            }
        }
        if has_row(state, last) {
            assert(has_row(state, readings[readings.len() - 1]));
            if before.app_info.dom().contains(last.process.pid) && !state.app_info.dom().contains(
                last.process.pid,
            ) {
                let i = choose|i: int|
                    0 <= i < init.len() && has_row(state, #[trigger] init[i])
                        && init[i].process.pid == last.process.pid;
                assert(readings[i].process.pid != readings[readings.len() - 1].process.pid);
            }
        }
    }
}

/// A look changes the settings by icons only, and says so whenever it changed anything. The
/// icon of an application that makes sound and may trigger ducking is kept, if it is known
/// and small enough.
pub proof fn law_a_look_only_keeps_icons(
    state: MacosView,
    states: Map<Seq<char>, PersistedDuckState>,
    readings: Seq<ProcessReading>,
)
    ensures
        processes_listed(state, states, readings).settings.enabled == state.settings.enabled,
        processes_listed(state, states, readings).settings.priority_triggers
            == state.settings.priority_triggers,
        !processes_listed(state, states, readings).settings_changed ==> processes_listed(
            state,
            states,
            readings,
        ).settings == state.settings,
        forall|i: int|
            0 <= i < readings.len() && has_row(state, #[trigger] readings[i])
                && readings[i].process.is_running_output ==> match opt_info(
                state.app_info,
                readings[i].process.pid,
            ) {
                Some(AppInfoView::Resolved(name, Some(icon))) => icon.len() <= 65_536
                    && state.settings.priority_triggers.contains(name) ==> processes_listed(
                    state,
                    states,
                    readings,
                ).settings.icons.dom().contains(name),
                _ => true,
            },
    decreases readings.len(),
{
    if readings.len() > 0 {
        let init = readings.drop_last();
        let before = processes_listed(state, states, init);
        let after = processes_listed(state, states, readings);
        law_a_look_only_keeps_icons(state, states, init);
        lemma_infos(state, states, init);
        assert forall|i: int|
            0 <= i < readings.len() && has_row(state, #[trigger] readings[i])
                && readings[i].process.is_running_output implies match opt_info(
            state.app_info,
            readings[i].process.pid,
        ) {
            Some(AppInfoView::Resolved(name, Some(icon))) => icon.len() <= 65_536
                && state.settings.priority_triggers.contains(name)
                ==> after.settings.icons.dom().contains(name),
            _ => true,
        } by {
            if i < init.len() {
                assert(has_row(state, init[i]));
                assert(before.settings.icons.dom().subset_of(after.settings.icons.dom()));
            }
        }
    }
}

/// Whether a process has a row, makes sound, and has the name and an icon that is small
/// enough to keep.
pub open spec fn shows_icon_of(state: MacosView, reading: ProcessReading, name: Seq<char>) -> bool {
    &&& has_row(state, reading)
    &&& reading.process.is_running_output
    &&& opt_info(state.app_info, reading.process.pid) matches Some(
        AppInfoView::Resolved(n, Some(icon)),
    )
    &&& n == name
    &&& icon.len() <= 65_536
}

/// A look changes the icon that is kept for a name only if an application of that name may
/// trigger ducking, makes sound and has one that is small enough. The settings are saved only
/// if there is such a one.
pub proof fn law_whose_icons_are_kept(
    state: MacosView,
    states: Map<Seq<char>, PersistedDuckState>,
    readings: Seq<ProcessReading>,
    name: Seq<char>,
)
    ensures
        ({
            let after = processes_listed(state, states, readings);
            let kept = exists|i: int|
                0 <= i < readings.len() && #[trigger] shows_icon_of(state, readings[i], name);
            &&& !kept || !state.settings.priority_triggers.contains(name) ==> opt_get(
                after.settings.icons,
                name,
            ) == opt_get(state.settings.icons, name)
            &&& after.settings_changed ==> exists|i: int, shown: Seq<char>|
                0 <= i < readings.len() && #[trigger] shows_icon_of(state, readings[i], shown)
                    && state.settings.priority_triggers.contains(shown)
        }),
    decreases readings.len(),
{
    if readings.len() > 0 {
        let init = readings.drop_last();
        let last = readings.last();
        let before = processes_listed(state, states, init);
        let after = processes_listed(state, states, readings);
        law_whose_icons_are_kept(state, states, init, name);
        law_a_look_only_keeps_icons(state, states, init);
        lemma_infos(state, states, init);
        if exists|i: int| 0 <= i < init.len() && #[trigger] shows_icon_of(state, init[i], name) {
            let i = choose|i: int|
                0 <= i < init.len() && #[trigger] shows_icon_of(state, init[i], name);
            assert(shows_icon_of(state, readings[i], name));
        }
        let (shown, icon) = shown_info(before.app_info, last.process.pid);
        if has_row(state, last) && icon_is_new(
            before.settings,
            shown,
            icon,
            last.process.is_running_output,
        ) {
            assert(shows_icon_of(state, readings[readings.len() - 1], shown));
        }
        if before.settings_changed {
            let (i, s) = choose|i: int, s: Seq<char>|
                0 <= i < init.len() && #[trigger] shows_icon_of(state, init[i], s)
                    && state.settings.priority_triggers.contains(s);
            assert(shows_icon_of(state, readings[i], s));
        }
    }
}

/// What is remembered of a process that was seen stays, and so does the engine.
pub proof fn law_seen_processes_are_remembered(
    state: MacosView,
    app_info: Map<i32, AppInfoView>,
    settings: SettingsView,
    readings: Seq<ProcessReading>,
    i: int,
)
    requires
        0 <= i < readings.len(),
    ensures
        ({
            let after = listed_state(state, app_info, settings, readings);
            let pid = readings[i].process.pid;
            let id = tap_session_id(pid);
            &&& opt_get(after.gain_state, id) == opt_get(state.gain_state, id)
            &&& opt_get(after.ducking_state, id) == opt_get(state.ducking_state, id)
            &&& opt_get(after.hold, id) == opt_get(state.hold, id)
            &&& opt_info(after.app_info, pid) == opt_info(app_info, pid)
            &&& after.hidden.dom().contains(pid) == state.hidden.dom().contains(pid)
            &&& state.hidden.dom().contains(pid) ==> after.hidden[pid] == state.hidden[pid]
            &&& after.settings == settings
            &&& (after.engine, after.pending) == (state.engine, state.pending)
            &&& after.rebuild_generation == state.rebuild_generation
            &&& after.installed == state.installed
        }),
{
    let pid = readings[i].process.pid;
    let ids = ids_of(processes_in(readings));
    assert(ids[i] == tap_session_id(pid));
    assert(name_set(ids).contains(ids[i]));
    assert(pids_in(readings)[i] == pid);
    assert(pid_set(pids_in(readings)).contains(pid));
}

/// Whether a session has its slot at `i`: it stands there and nowhere after.
pub open spec fn stands_last_at(tapped: Seq<Seq<char>>, id: Seq<char>, i: int) -> bool {
    &&& 0 <= i < tapped.len() && tapped[i] == id
    &&& forall|k: int| i < k < tapped.len() ==> #[trigger] tapped[k] != id
}

/// A session has a slot exactly if it is tapped, and it is the last place where it stands.
pub proof fn law_where_a_session_is_tapped(tapped: Seq<Seq<char>>, id: Seq<char>)
    ensures
        match slot_of(tapped, id) {
            Some(i) => stands_last_at(tapped, id, i),
            None => !tapped.contains(id),
        },
{
    lemma_slot_of_some(tapped, id);
    if slot_of(tapped, id) is None && tapped.contains(id) {
        let k = choose|k: int| 0 <= k < tapped.len() && tapped[k] == id;
        assert(tapped[k] != id);
    }
}

/// What is shown of who talks: nothing while ducking is off; what the detectors of the
/// running engine say, slot by slot; while it is being rebuilt what those of the one before
/// said; and nothing without an engine.
pub proof fn law_what_is_shown_of_who_talks(
    state: MacosView,
    engine_states: Seq<PersistedDuckState>,
    id: Seq<char>,
)
    ensures
        ({
            let shown = opt_get(shown_duck_states(state, engine_states), id);
            &&& !state.settings.enabled ==> shown is None
            &&& state.settings.enabled ==> match state.engine {
                Some(tapped) => match shown {
                    Some(s) => exists|i: int|
                        stands_last_at(tapped, id, i) && i < engine_states.len()
                            && #[trigger] engine_states[i] == s,
                    None => forall|i: int|
                        stands_last_at(tapped, id, i) ==> i >= engine_states.len(),
                },
                None => if state.pending is Some {
                    shown == opt_get(state.ducking_state, id)
                } else {
                    shown is None
                },
            }
        }),
{
    if let Some(tapped) = state.engine {
        law_where_a_session_is_tapped(tapped, id);
        let states = slot_states(tapped, engine_states);
        if let Some(i) = slot_of(tapped, id) {
            assert forall|k: int| stands_last_at(tapped, id, k) implies k == i by {
                if k < i {
                    assert(tapped[i] != id);
                } else if k > i {
                    assert(tapped[k] != id);
                }
            }
            if i < engine_states.len() {
                assert(states.dom().contains(id) && states[id] == engine_states[i]);
            }
        } else {
            assert forall|k: int| !stands_last_at(tapped, id, k) by {
                if stands_last_at(tapped, id, k) {
                    assert(tapped.contains(tapped[k]));
                }
            }
        }
    }
}

/// Whether a process makes sound among those that are listed.
pub open spec fn makes_sound(processes: Seq<AudioProcessInfo>, id: Seq<char>) -> bool {
    exists|i: int|
        0 <= i < processes.len() && (#[trigger] processes[i]).is_running_output && tap_session_id(
            processes[i].pid,
        ) == id
}

/// A process that makes sound for the first time starts at full volume, not muted and
/// centered; what was set before stays. Whoever makes sound stays wanted for one and a half
/// seconds from now on, and for all others nothing changes.
pub proof fn law_who_makes_sound_is_noted(
    state: MacosView,
    processes: Seq<AudioProcessInfo>,
    now: u64,
    id: Seq<char>,
)
    requires
        now + 1_500_000_000 <= u64::MAX,
    ensures
        ({
            let after = noted(state, processes, now);
            let gain = opt_get(after.gain_state, id);
            &&& state.gain_state.dom().contains(id) ==> gain == opt_get(state.gain_state, id)
            &&& !state.gain_state.dom().contains(id) && makes_sound(processes, id) ==> (gain
                matches Some(g) && g.volume.bits == 0x3f80_0000 && !g.muted && g.balance.bits == 0
                && g.generation == 0)
            &&& !state.gain_state.dom().contains(id) && !makes_sound(processes, id)
                ==> gain is None
            &&& opt_get(after.hold, id) == if makes_sound(processes, id) {
                Some((now + 1_500_000_000) as u64)
            } else {
                opt_get(state.hold, id)
            }
            &&& (after.engine, after.pending) == (state.engine, state.pending)
            &&& (after.app_info, after.hidden) == (state.app_info, state.hidden)
            &&& (after.settings, after.ducking_state) == (state.settings, state.ducking_state)
            &&& (after.rebuild_generation, after.installed) == (
                state.rebuild_generation,
                state.installed,
            )
        }),
    decreases processes.len(),
{
    if processes.len() > 0 {
        let init = processes.drop_last();
        let last = processes.last();
        law_who_makes_sound_is_noted(state, init, now, id);
        if makes_sound(init, id) {
            let i = choose|i: int|
                0 <= i < init.len() && (#[trigger] init[i]).is_running_output && tap_session_id(
                    init[i].pid,
                ) == id;
            assert(processes[i].is_running_output);
        }
        if makes_sound(processes, id) {
            let i = choose|i: int|
                0 <= i < processes.len() && (#[trigger] processes[i]).is_running_output
                    && tap_session_id(processes[i].pid) == id;
            if i < init.len() {
                assert(init[i].is_running_output);
            }
        }
        if last.is_running_output && tap_session_id(last.pid) == id {
            assert(processes[processes.len() - 1].is_running_output);
        }
    }
}

/// A process is tapped exactly if it makes sound now or did so recently enough to be held.
pub proof fn law_who_is_tapped(
    state: MacosView,
    processes: Seq<AudioProcessInfo>,
    now: u64,
    p: AudioProcessInfo,
)
    ensures
        active(state, processes, now).contains(p) <==> processes.contains(p) && (
        p.is_running_output || (opt_get(state.hold, tap_session_id(p.pid)) matches Some(until)
            && now < until)),
        active(state, processes, now).len() <= processes.len(),
{
    lemma_filter_members(processes, tappable(state.hold, now));
    lemma_filter_not_longer(processes, tappable(state.hold, now));
    assert(tappable(state.hold, now)(p) <==> (p.is_running_output || (opt_get(
        state.hold,
        tap_session_id(p.pid),
    ) matches Some(until) && now < until)));
}

proof fn lemma_filter_not_longer(
    processes: Seq<AudioProcessInfo>,
    p: spec_fn(AudioProcessInfo) -> bool,
)
    ensures
        processes.filter(p).len() <= processes.len(),
    decreases processes.len(),
{
    reveal(Seq::filter);
    if processes.len() > 0 {
        lemma_filter_not_longer(processes.drop_last(), p);
    }
}

/// Whether the name of a process is known to be that of a trigger.
pub open spec fn may_trigger(state: MacosView, pid: i32) -> bool {
    opt_info(state.app_info, pid) matches Some(AppInfoView::Resolved(name, _))
        && state.settings.priority_triggers.contains(name)
}

proof fn lemma_exclusions(state: MacosView, processes: Seq<AudioProcessInfo>)
    ensures
        forall|i: int|
            0 <= i < processes.len() ==> opt_get(
                exclusions(state, processes),
                tap_session_id((#[trigger] processes[i]).pid),
            ) == Some(!may_trigger(state, processes[i].pid)),
    decreases processes.len(),
{
    if processes.len() > 0 {
        let init = processes.drop_last();
        lemma_exclusions(state, init);
        assert forall|i: int| 0 <= i < processes.len() implies opt_get(
            exclusions(state, processes),
            tap_session_id((#[trigger] processes[i]).pid),
        ) == Some(!may_trigger(state, processes[i].pid)) by {
            assert(is_excluded(state, processes[i].pid) == !may_trigger(state, processes[i].pid));
            if i < init.len() {
                assert(init[i] == processes[i]);
                if processes[i].pid != processes.last().pid {
                    law_tap_session_ids_differ(processes[i].pid, processes.last().pid);
                }
            }
        }
    }
}

/// The running engine is right exactly if it taps the sessions of these processes and no
/// others, and lets exactly those of them trigger ducking whose names are triggers.
pub proof fn law_when_an_engine_is_right(state: MacosView, active: Seq<AudioProcessInfo>)
    ensures
        is_up_to_date(state, active) <==> {
            &&& forall|id: Seq<char>| #[trigger]
                tapped_by(state, id) <==> exists|i: int|
                    0 <= i < active.len() && tap_session_id((#[trigger] active[i]).pid) == id
            &&& forall|i: int|
                0 <= i < active.len() ==> opt_get(
                    state.installed,
                    tap_session_id((#[trigger] active[i]).pid),
                ) == Some(!may_trigger(state, active[i].pid))
        },
{
    let wanted = ids_of(active);
    let tapped = tapped_ids(state);
    lemma_exclusions(state, active);
    assert forall|id: Seq<char>| wanted.contains(id) <==> exists|i: int|
        0 <= i < active.len() && tap_session_id((#[trigger] active[i]).pid) == id by {
        if wanted.contains(id) {
            let i = choose|i: int| 0 <= i < wanted.len() && wanted[i] == id;
            assert(tap_session_id(active[i].pid) == id);
        }
        if exists|i: int|
            0 <= i < active.len() && tap_session_id((#[trigger] active[i]).pid) == id {
            let i = choose|i: int|
                0 <= i < active.len() && tap_session_id((#[trigger] active[i]).pid) == id;
            assert(wanted[i] == id);
        }
    }
    assert forall|id: Seq<char>| #[trigger] tapped_by(state, id) <==> tapped.contains(id) by {}
    if is_up_to_date(state, active) {
        assert forall|id: Seq<char>| #[trigger] tapped_by(state, id) <==> exists|i: int|
            0 <= i < active.len() && tap_session_id((#[trigger] active[i]).pid) == id by {
            assert(name_set(tapped).contains(id) == name_set(wanted).contains(id));
        }
        assert forall|i: int| 0 <= i < active.len() implies opt_get(
            state.installed,
            tap_session_id((#[trigger] active[i]).pid),
        ) == Some(!may_trigger(state, active[i].pid)) by {
            assert(wanted[i] == tap_session_id(active[i].pid));
        }
    }
    if (forall|id: Seq<char>| #[trigger]
        tapped_by(state, id) <==> exists|i: int|
            0 <= i < active.len() && tap_session_id((#[trigger] active[i]).pid) == id) && (forall|
        i: int,
    |
        0 <= i < active.len() ==> opt_get(
            state.installed,
            tap_session_id((#[trigger] active[i]).pid),
        ) == Some(!may_trigger(state, active[i].pid))) {
        assert forall|id: Seq<char>| name_set(tapped).contains(id) == name_set(wanted).contains(
            id,
        ) by {
            assert(tapped_by(state, id) <==> wanted.contains(id));
        }
        assert(name_set(tapped) =~= name_set(wanted));
        assert forall|i: int| 0 <= i < wanted.len() implies opt_get(
            state.installed,
            #[trigger] wanted[i],
        ) == opt_get(exclusions(state, active), wanted[i]) by {
            assert(wanted[i] == tap_session_id(active[i].pid));
        }
    }
}

/// Whether the running engine taps a session.
pub open spec fn tapped_by(state: MacosView, id: Seq<char>) -> bool {
    state.engine matches Some(tapped) && tapped.contains(id)
}

proof fn lemma_gains_added(gains: Map<Seq<char>, AppGainState>, ids: Seq<Seq<char>>, id: Seq<char>)
    ensures
        ({
            let gain = opt_get(gains_added(gains, ids), id);
            &&& gains.dom().contains(id) ==> gain == opt_get(gains, id)
            &&& !gains.dom().contains(id) && ids.contains(id) ==> (gain matches Some(g)
                && g.volume.bits == 0x3f80_0000 && !g.muted && g.balance.bits == 0 && g.generation
                == 0)
            &&& !gains.dom().contains(id) && !ids.contains(id) ==> gain is None
        }),
    decreases ids.len(),
{
    if ids.len() > 0 {
        let init = ids.drop_last();
        lemma_gains_added(gains, init, id);
        lemma_push_members(init, ids.last());
        assert(init.push(ids.last()) =~= ids);
        assert(ids.contains(id) == (init.contains(id) || id == ids.last()));
    }
}

/// What comparing the engine with the processes does. Nothing, if the engine is right or a
/// rebuild is under way. Otherwise the engine is gone, and what its detectors had come to is
/// kept; a rebuild for exactly these processes is under way, if there are any, and is counted.
/// What the user set stays.
pub proof fn law_what_reconciling_does(
    state: MacosView,
    active: Seq<AudioProcessInfo>,
    outgoing: Seq<PersistedDuckState>,
    id: Seq<char>,
)
    ensures
        ({
            let after = reconciled(state, active, outgoing);
            let stays = is_up_to_date(state, active) || state.pending is Some;
            &&& stays ==> after == state
            &&& !stays ==> {
                &&& after.engine is None
                &&& active.len() == 0 ==> after.pending is None && after.rebuild_generation
                    == state.rebuild_generation && after.gain_state == state.gain_state
                    && after.installed.dom().len() == 0
                &&& active.len() > 0 ==> {
                    &&& after.pending matches Some(target)
                    &&& target.len() == active.len()
                    &&& forall|i: int|
                        0 <= i < active.len() ==> #[trigger] target[i] == tap_session_id(
                            active[i].pid,
                        )
                    &&& state.rebuild_generation < u64::MAX ==> after.rebuild_generation
                        == state.rebuild_generation + 1
                }
                &&& state.gain_state.dom().contains(id) ==> opt_get(after.gain_state, id)
                    == opt_get(state.gain_state, id)
                &&& after.settings == state.settings
                &&& (after.hold, after.app_info, after.hidden) == (
                    state.hold,
                    state.app_info,
                    state.hidden,
                )
                &&& forall|i: int|
                    state.engine is Some && stands_last_at(state.engine.unwrap(), id, i) && i
                        < outgoing.len() ==> opt_get(after.ducking_state, id) == Some(
                        #[trigger] outgoing[i],
                    )
                &&& !tapped_by(state, id) ==> opt_get(after.ducking_state, id) == opt_get(
                    state.ducking_state,
                    id,
                )
            }
        }),
{
    let after = reconciled(state, active, outgoing);
    if !(is_up_to_date(state, active) || state.pending is Some) {
        lemma_gains_added(state.gain_state, ids_of(active), id);
        if let Some(tapped) = state.engine {
            law_where_a_session_is_tapped(tapped, id);
            assert forall|i: int| stands_last_at(tapped, id, i) && i < outgoing.len() implies opt_get(
                after.ducking_state,
                id,
            ) == Some(#[trigger] outgoing[i]) by {
                assert(tapped.contains(tapped[i]));
                let slot = slot_of(tapped, id).unwrap();
                if slot < i {
                    assert(tapped[i] != id);
                } else if slot > i {
                    assert(tapped[slot] != id);
                }
                assert(slot_states(tapped, outgoing).dom().contains(id));
            }
        }
        if active.len() == 0 {
            assert(after.installed.dom() =~= Set::<Seq<char>>::empty());
        }
    }
}

/// The taps of a rebuild: one for each process, in order, on its audio object and under its
/// session id, with what is set for it; kept from triggering exactly if its name is not known
/// to be a trigger; and going on from what its detector had come to, or from the start.
pub proof fn law_what_a_rebuild_taps(state: MacosView, active: Seq<AudioProcessInfo>, i: int)
    requires
        0 <= i < active.len(),
    ensures
        planned_taps(state, active).len() == active.len(),
        ({
            let tap = planned_taps(state, active)[i];
            let id = tap_session_id(active[i].pid);
            &&& (tap.object_id, tap.session_id) == (active[i].object_id, id)
            &&& state.gain_state.dom().contains(id) ==> tap.gain == state.gain_state[id]
            &&& tap.excluded == !may_trigger(state, active[i].pid)
            &&& match opt_get(state.ducking_state, id) {
                Some(persisted) => tap.persisted == persisted,
                None => tap.persisted.speech_run == 0 && tap.persisted.silence_run == 0
                    && !tap.persisted.is_triggering,
            }
        }),
{
}

/// A process that is tapped for the first time has something set for it by then.
pub proof fn law_every_tap_has_a_gain(
    state: MacosView,
    active: Seq<AudioProcessInfo>,
    outgoing: Seq<PersistedDuckState>,
    i: int,
)
    requires
        !is_up_to_date(state, active),
        state.pending is None,
        0 <= i < active.len(),
    ensures
        reconciled(state, active, outgoing).gain_state.dom().contains(
            tap_session_id(active[i].pid),
        ),
{
    let ids = ids_of(active);
    let id = tap_session_id(active[i].pid);
    assert(ids[i] == id);
    assert(ids.contains(id));
    lemma_gains_added(state.gain_state, ids, id);
}

proof fn lemma_planned_exclusions(taps: Seq<PlannedTapView>, i: int)
    requires
        0 <= i < taps.len(),
        forall|k: int| i < k < taps.len() ==> (#[trigger] taps[k]).session_id != taps[i].session_id,
    ensures
        opt_get(planned_exclusions(taps), taps[i].session_id) == Some(taps[i].excluded),
    decreases taps.len(),
{
    let init = taps.drop_last();
    if i < init.len() {
        assert forall|k: int| i < k < init.len() implies (#[trigger] init[k]).session_id
            != init[i].session_id by {
            assert(init[k] == taps[k]);
        }
        lemma_planned_exclusions(init, i);
        assert(taps[taps.len() - 1].session_id != taps[i].session_id);
    }
}

/// A rebuild that came to its end as the latest one is no longer under way. If it was built,
/// its taps are those of the running engine, slot by slot, with their exclusions; if not,
/// there is no engine more than before. One that is not the latest changes nothing.
pub proof fn law_what_a_finished_rebuild_leaves(
    state: MacosView,
    generation: u64,
    taps: Seq<PlannedTapView>,
    built: bool,
    i: int,
)
    requires
        0 <= i < taps.len(),
        forall|k: int| i < k < taps.len() ==> (#[trigger] taps[k]).session_id != taps[i].session_id,
    ensures
        ({
            let after = rebuilt(state, generation, taps, built);
            &&& generation != state.rebuild_generation ==> after == state
            &&& generation == state.rebuild_generation ==> after.pending is None
            &&& generation == state.rebuild_generation && !built ==> after.engine == state.engine
                && after.installed == state.installed
            &&& generation == state.rebuild_generation && built ==> (after.engine matches Some(
                tapped,
            ) && tapped.len() == taps.len() && tapped[i] == taps[i].session_id && opt_get(
                after.installed,
                taps[i].session_id,
            ) == Some(taps[i].excluded))
            &&& (after.gain_state, after.hold) == (state.gain_state, state.hold)
            &&& (after.settings, after.ducking_state) == (state.settings, state.ducking_state)
            &&& (after.app_info, after.hidden) == (state.app_info, state.hidden)
            &&& after.rebuild_generation == state.rebuild_generation
        }),
{
    lemma_planned_exclusions(taps, i);
    assert(planned_ids(taps)[i] == taps[i].session_id);
}

/// What is set for a session is handed on to its slot, exactly if it is tapped.
pub proof fn law_changes_reach_the_slot(
    state: MacosView,
    id: Seq<char>,
    gain: AppGainState,
    change: GainChange,
)
    requires
        is_change(state, id, gain, change),
    ensures
        change.gain == gain,
        change.generation == gain.generation,
        match change.slot {
            Some(slot) => state.engine matches Some(tapped) && stands_last_at(
                tapped,
                id,
                slot as int,
            ),
            None => !tapped_by(state, id),
        },
{
    law_where_a_session_is_tapped(tapped_ids(state), id);
}

/// Exactly this program itself is left out of the processes that are looked at.
pub proof fn law_all_others_are_looked_at(
    processes: Seq<AudioProcessInfo>,
    own_pid: i32,
    p: AudioProcessInfo,
)
    ensures
        processes.filter(other_process(own_pid)).contains(p) <==> processes.contains(p) && p.pid
            != own_pid,
        processes.filter(other_process(own_pid)).len() <= processes.len(),
{
    lemma_filter_members(processes, other_process(own_pid));
    lemma_filter_not_longer(processes, other_process(own_pid));
    assert(other_process(own_pid)(p) == (p.pid != own_pid));
}

/// What the backend holds is what its fields hold.
pub proof fn law_the_backend_shows_its_fields(backend: MacosMixerBackend)
    ensures
        backend@.gain_state == backend.gain_state@,
        backend@.hidden == backend.hidden_process_cache@,
        backend@.hold == backend.active_hold_until@,
        backend@.settings == backend.ducking_settings@,
        backend@.ducking_state == backend.ducking_state@,
        backend@.rebuild_generation == backend.rebuild_generation,
        backend@.installed == backend.installed_duck_excluded@,
        backend@.engine is Some == backend.engine is Some,
        backend@.pending is Some == backend.pending_rebuild_target is Some,
        backend@.app_info.dom() == backend.app_info_cache@.dom(),
        forall|pid: i32| #[trigger]
            backend@.app_info.dom().contains(pid) ==> backend@.app_info[pid]
                == backend.app_info_cache@[pid]@,
        backend.engine matches Some(tapped) ==> backend@.engine.unwrap().len() == tapped@.len()
            && forall|i: int|
            0 <= i < tapped@.len() ==> #[trigger] backend@.engine.unwrap()[i] == tapped@[i]@,
{
    assert(backend@.app_info.dom() =~= backend.app_info_cache@.dom());
}

/// When the engine runs, the gains that are set go to exactly the slots of the tapped
/// sessions that have any.
pub proof fn law_which_gains_are_set(
    gains: Map<Seq<char>, AppGainState>,
    tapped: Seq<Seq<char>>,
    updates: Seq<(usize, AppGainState)>,
    slot: usize,
)
    requires
        are_gain_updates(gains, tapped, updates),
        slot < tapped.len(),
    ensures
        (exists|k: int| 0 <= k < updates.len() && (#[trigger] updates[k]).0 == slot)
            <==> stands_last_at(tapped, tapped[slot as int], slot as int) && gains.dom().contains(
            tapped[slot as int],
        ),
        forall|k: int|
            0 <= k < updates.len() && (#[trigger] updates[k]).0 == slot ==> updates[k].1
                == gains[tapped[slot as int]],
{
    let id = tapped[slot as int];
    law_where_a_session_is_tapped(tapped, id);
    assert(tapped.contains(id));
    let last = slot_of(tapped, id).unwrap();
    assert(stands_last_at(tapped, id, last));
    if stands_last_at(tapped, id, slot as int) && last != slot {
        if last < slot {
            assert(tapped[slot as int] != id);
        } else {
            assert(tapped[last] != id);
        }
    }
    if exists|k: int| 0 <= k < updates.len() && (#[trigger] updates[k]).0 == slot {
        let k = choose|k: int| 0 <= k < updates.len() && (#[trigger] updates[k]).0 == slot;
        assert(slot_of(tapped, id) == Some(slot as int));
    }
}

/// What a planned tap, a known name and a request for one hold is what their fields hold.
pub proof fn law_plans_show_their_fields(
    tap: PlannedTap,
    name: String,
    icon: Option<Vec<u8>>,
    requests: Seq<(i32, Option<String>)>,
)
    ensures
        (tap@.object_id, tap@.session_id) == (tap.object_id, tap.session_id@),
        (tap@.gain, tap@.excluded, tap@.persisted) == (tap.gain, tap.excluded, tap.persisted),
        AppInfoCacheEntry::Pending@ is Pending,
        AppInfoCacheEntry::Resolved(name, icon)@ == AppInfoView::Resolved(name@, opt_bytes(icon)),
        resolve_views(requests).len() == requests.len(),
        forall|i: int|
            0 <= i < requests.len() ==> #[trigger] resolve_views(requests)[i] == (
                requests[i].0,
                opt_text(requests[i].1),
            ),
{
}

/// At the start there is no engine, nothing is set, remembered or under way.
pub proof fn law_the_start(settings: SettingsView, id: Seq<char>, pid: i32)
    ensures
        ({
            let start = initial_state(settings);
            &&& start.engine is None && start.pending is None && start.rebuild_generation == 0
            &&& opt_get(start.gain_state, id) is None
            &&& opt_get(start.hold, id) is None
            &&& opt_get(start.ducking_state, id) is None
            &&& opt_get(start.installed, id) is None
            &&& opt_info(start.app_info, pid) is None
            &&& !start.hidden.dom().contains(pid)
            &&& start.settings == settings
        }),
{
}

/// A name and icon that were found are taken in for a process that is being looked for, and
/// for no other: what is known already stays, and so does everything else.
pub proof fn law_what_is_found_is_taken_in(
    state: MacosView,
    pid: i32,
    name: Seq<char>,
    icon: Option<Seq<u8>>,
    other: i32,
)
    ensures
        ({
            let after = info_taken(state, pid, name, icon);
            let known = opt_info(state.app_info, other);
            &&& other == pid && known == Some(AppInfoView::Pending) ==> opt_info(
                after.app_info,
                other,
            ) == Some(AppInfoView::Resolved(name, icon))
            &&& other != pid || known != Some(AppInfoView::Pending) ==> opt_info(
                after.app_info,
                other,
            ) == known
            &&& (after.gain_state, after.hold) == (state.gain_state, state.hold)
            &&& (after.engine, after.pending) == (state.engine, state.pending)
            &&& (after.settings, after.ducking_state) == (state.settings, state.ducking_state)
            &&& (after.rebuild_generation, after.installed) == (
                state.rebuild_generation,
                state.installed,
            )
            &&& after.hidden == state.hidden
        }),
{
}

/// What session ids look like: `macos-` and the number of the process.
pub proof fn law_what_session_ids_look_like(pid: i32)
    ensures
        tap_session_id(pid) == seq!['m', 'a', 'c', 'o', 's', '-'] + signed_decimal(pid as int),
{
    reveal_strlit("macos-");
    assert("macos-"@ =~= seq!['m', 'a', 'c', 'o', 's', '-']);
}

} // verus!
