//! What a look at the sessions on Windows shows, remembers and writes, process by process.

use vstd::prelude::*;

use crate::level::Level;
use crate::name_map::name_set;
use crate::seqs::lemma_push_members;
use crate::session::{opt_bytes, opt_text, SessionView, SettingsView};
use crate::windows::{
    debounced, law_group_id_names_no_process, law_session_id_names_its_process, member_pids,
    process_session_id, targets_set, written_volume, WindowsMixerBackend, WindowsView,
};
use crate::windows_controls::{needs_restore, restore_ids};
use crate::windows_laws::{distinct_processes, law_captures_are_the_wanted, looked_at};
use crate::windows_listing::{
    any_triggering, begun, captures_started, finished, lemma_rows_listed, listing, raw_views,
    reading_views, row_ids, rows_listed, targets_seeded, wanted_ids, write_views, RawSession,
    RawView, ReadingView, SessionReading,
};

verus! {

/// Whether somebody who is listened to is talking.
pub open spec fn somebody_talks(state: WindowsView, triggering: Seq<Seq<char>>) -> bool {
    exists|id: Seq<char>| #[trigger] triggering.contains(id) && state.captures.dom().contains(id)
}

/// Whether the last volume that was written for a session was the ducked one.
pub open spec fn left_ducked(state: WindowsView, id: Seq<char>) -> bool {
    state.applied_ducked.dom().contains(id) && state.applied_ducked[id]
}

/// The output device to show after a reading: one is believed if it is the first or comes
/// again, and otherwise the last one that was believed stays.
pub open spec fn believed(state: WindowsView, id: Seq<char>, read: Option<Seq<char>>) -> Option<
    Seq<char>,
> {
    if !state.device_raw.dom().contains(id) || state.device_raw[id] == read {
        read
    } else if state.device_confirmed.dom().contains(id) {
        state.device_confirmed[id]
    } else {
        None
    }
}

/// What the row of a process says, given what was read of it and what is remembered.
pub open spec fn tells(
    row: SessionView,
    state: WindowsView,
    reading: ReadingView,
    triggering: Seq<Seq<char>>,
    somebody: bool,
) -> bool {
    let raw = reading.raw;
    let id = process_session_id(raw.pid);
    let talks = triggering.contains(id) && state.captures.dom().contains(id);
    &&& row.id == id
    &&& (row.display_name, row.icon_png) == (raw.display_name, raw.icon_png)
    &&& (row.muted, row.balance, row.is_active) == (raw.muted, raw.balance, raw.is_active)
    &&& row.is_duck_trigger == talks
    &&& row.is_ducked == (somebody && !talks)
    &&& state.target_volume.dom().contains(id) ==> row.volume == state.target_volume[id]
    &&& !state.target_volume.dom().contains(id) ==> row.volume == raw.live_volume
    // Ducked means times 0.22.
    &&& row.is_ducked ==> row.effective_volume == row.volume.scaled(Level { bits: 0x3e61_47ae })
    &&& !row.is_ducked ==> row.effective_volume == row.volume
    &&& state.write_generations.dom().contains(id) ==> row.write_generation
        == state.write_generations[id]
    &&& !state.write_generations.dom().contains(id) ==> row.write_generation == 0
    &&& row.output_device_id == believed(state, id, reading.routed_device)
}

proof fn lemma_other_ids(pid: u32, other: u32)
    requires
        pid != other,
    ensures
        process_session_id(pid) != process_session_id(other),
{
    law_session_id_names_its_process(pid);
    law_session_id_names_its_process(other);
}

/// What is remembered of a process that was not read yet is as it was.
proof fn lemma_not_read_yet(
    state: WindowsView,
    readings: Seq<ReadingView>,
    any: bool,
    triggering: Seq<Seq<char>>,
    pid: u32,
)
    requires
        !looked_at(readings, pid),
    ensures
        ({
            let after = rows_listed(state, readings, any, triggering).state;
            let id = process_session_id(pid);
            &&& after.device_raw.dom().contains(id) == state.device_raw.dom().contains(id)
            &&& state.device_raw.dom().contains(id) ==> after.device_raw[id]
                == state.device_raw[id]
            &&& after.device_confirmed.dom().contains(id) == state.device_confirmed.dom().contains(
                id,
            )
            &&& state.device_confirmed.dom().contains(id) ==> after.device_confirmed[id]
                == state.device_confirmed[id]
            &&& after.applied_ducked.dom().contains(id) == state.applied_ducked.dom().contains(id)
            &&& state.applied_ducked.dom().contains(id) ==> after.applied_ducked[id]
                == state.applied_ducked[id]
        }),
    decreases readings.len(),
{
    if readings.len() > 0 {
        let init = readings.drop_last();
        assert(!looked_at(init, pid)) by {
            if looked_at(init, pid) {
                let k = choose|k: int| 0 <= k < init.len() && (#[trigger] init[k]).raw.pid == pid;
                assert(readings[k].raw.pid == pid);
            }
        }
        lemma_not_read_yet(state, init, any, triggering, pid);
        assert(readings[readings.len() - 1].raw.pid != pid);
        lemma_other_ids(pid, readings.last().raw.pid);
    }
}

proof fn lemma_init_distinct(readings: Seq<ReadingView>)
    requires
        distinct_processes(readings),
        readings.len() > 0,
    ensures
        distinct_processes(readings.drop_last()),
        !looked_at(readings.drop_last(), readings.last().raw.pid),
{
    let init = readings.drop_last();
    assert forall|a: int, b: int| 0 <= a < b < init.len() implies (#[trigger] init[a]).raw.pid != (
    #[trigger] init[b]).raw.pid by {
        assert(readings[a].raw.pid != readings[b].raw.pid);
    }
    if looked_at(init, readings.last().raw.pid) {
        let k = choose|k: int|
            0 <= k < init.len() && (#[trigger] init[k]).raw.pid == readings.last().raw.pid;
        assert(readings[k].raw.pid != readings[readings.len() - 1].raw.pid);
    }
}

proof fn lemma_rows_tell(
    state: WindowsView,
    readings: Seq<ReadingView>,
    any: bool,
    triggering: Seq<Seq<char>>,
)
    requires
        distinct_processes(readings),
    ensures
        ({
            let after = rows_listed(state, readings, any, triggering);
            &&& after.rows.len() == readings.len()
            &&& forall|i: int|
                0 <= i < readings.len() ==> tells(
                    #[trigger] after.rows[i],
                    state,
                    readings[i],
                    triggering,
                    any,
                )
        }),
    decreases readings.len(),
{
    if readings.len() > 0 {
        let init = readings.drop_last();
        let before = rows_listed(state, init, any, triggering);
        let after = rows_listed(state, readings, any, triggering);
        lemma_init_distinct(readings);
        lemma_rows_tell(state, init, any, triggering);
        lemma_rows_listed(state, init, any, triggering);
        lemma_not_read_yet(state, init, any, triggering, readings.last().raw.pid);
        assert forall|i: int| 0 <= i < readings.len() implies tells(
            #[trigger] after.rows[i],
            state,
            readings[i],
            triggering,
            any,
        ) by {
            if i < init.len() {
                assert(after.rows[i] == before.rows[i]);
                assert(init[i] == readings[i]);
            }
        }
    }
}

/// Every process that was read has one row, in the order of the readings. It shows the name,
/// icon, mute, balance and activity as they were read; the volume that the user set, or else
/// the one that was read; whether the process talks, and whether it is ducked because another
/// one does; what is heard of it; how often it was changed; and its output device once that
/// is believed.
pub proof fn law_rows_show_what_was_read(
    state: WindowsView,
    readings: Seq<ReadingView>,
    triggering: Seq<Seq<char>>,
)
    requires
        distinct_processes(readings),
    ensures
        listing(state, readings, triggering).rows.len() == readings.len(),
        forall|i: int|
            0 <= i < readings.len() ==> tells(
                #[trigger] listing(state, readings, triggering).rows[i],
                state,
                readings[i],
                triggering,
                somebody_talks(state, triggering),
            ),
{
    let any = any_triggering(state, triggering);
    lemma_rows_tell(state, readings, any, triggering);
    assert(any == somebody_talks(state, triggering)) by {
        if any {
            let id = choose|id: Seq<char>| #[trigger]
                state.captures.dom().contains(id) && triggering.contains(id);
            assert(triggering.contains(id));
        }
        if somebody_talks(state, triggering) {
            let id = choose|id: Seq<char>| #[trigger]
                triggering.contains(id) && state.captures.dom().contains(id);
            assert(state.captures.dom().contains(id));
        }
    }
}

/// Whether a write is owed to a row: whether it is ducked has changed, and what is written
/// is what is heard of it now.
pub open spec fn is_owed(state: WindowsView, row: SessionView, write: (Seq<char>, Level)) -> bool {
    &&& write == (row.id, row.effective_volume)
    &&& row.is_ducked != left_ducked(state, row.id)
}

proof fn lemma_writes(
    state: WindowsView,
    readings: Seq<ReadingView>,
    any: bool,
    triggering: Seq<Seq<char>>,
)
    requires
        distinct_processes(readings),
    ensures
        ({
            let after = rows_listed(state, readings, any, triggering);
            &&& forall|w: (Seq<char>, Level)| #[trigger]
                after.writes.contains(w) <==> exists|i: int|
                    0 <= i < after.rows.len() && is_owed(state, #[trigger] after.rows[i], w)
            &&& after.writes.len() <= readings.len()
            &&& forall|i: int|
                0 <= i < after.rows.len() ==> left_ducked(
                    after.state,
                    (#[trigger] after.rows[i]).id,
                ) == after.rows[i].is_ducked
        }),
    decreases readings.len(),
{
    let after = rows_listed(state, readings, any, triggering);
    if readings.len() > 0 {
        let init = readings.drop_last();
        let before = rows_listed(state, init, any, triggering);
        let row = after.rows.last();
        let pid = readings.last().raw.pid;
        let id = process_session_id(pid);
        lemma_init_distinct(readings);
        lemma_writes(state, init, any, triggering);
        lemma_rows_listed(state, init, any, triggering);
        lemma_rows_listed(state, readings, any, triggering);
        lemma_not_read_yet(state, init, any, triggering, pid);
        let owed = (id, row.effective_volume);
        lemma_push_members(before.writes, owed);
        assert(left_ducked(before.state, id) == left_ducked(state, id));
        assert(row.is_ducked != left_ducked(state, id) ==> after.writes == before.writes.push(
            owed,
        ));
        assert(row.is_ducked == left_ducked(state, id) ==> after.writes == before.writes);
        assert forall|w: (Seq<char>, Level)| #[trigger] after.writes.contains(w) <==> exists|i: int|
            0 <= i < after.rows.len() && is_owed(state, #[trigger] after.rows[i], w) by {
            assert(before.writes.contains(w) <==> exists|i: int|
                0 <= i < before.rows.len() && is_owed(state, #[trigger] before.rows[i], w));
            assert(before.writes.push(owed).contains(w) == (before.writes.contains(w) || w
                == owed));
            if exists|i: int|
                0 <= i < after.rows.len() && is_owed(state, #[trigger] after.rows[i], w) {
                let i = choose|i: int|
                    0 <= i < after.rows.len() && is_owed(state, #[trigger] after.rows[i], w);
                if i < before.rows.len() {
                    assert(before.rows[i] == after.rows[i]);
                    assert(is_owed(state, before.rows[i], w));
                } else {
                    assert(after.rows[i] == row);
                }
            }
            if after.writes.contains(w) {
                if before.writes.contains(w) {
                    let i = choose|i: int|
                        0 <= i < before.rows.len() && is_owed(state, #[trigger] before.rows[i], w);
                    assert(after.rows[i] == before.rows[i]);
                } else {
                    assert(w == owed);
                    assert(is_owed(state, after.rows[after.rows.len() - 1], w));
                }
            }
        }
        assert forall|i: int| 0 <= i < after.rows.len() implies left_ducked(
            after.state,
            (#[trigger] after.rows[i]).id,
        ) == after.rows[i].is_ducked by {
            if i < before.rows.len() {
                assert(after.rows[i] == before.rows[i]);
                assert(readings[i].raw.pid != pid);
                lemma_other_ids(readings[i].raw.pid, pid);
            }
        }
    }
}

/// Exactly those processes have a volume written whose being ducked has changed since the
/// last write, and it is the volume that is to be heard. What was written is remembered.
pub proof fn law_exactly_the_changes_are_written(
    state: WindowsView,
    readings: Seq<ReadingView>,
    triggering: Seq<Seq<char>>,
)
    requires
        distinct_processes(readings),
    ensures
        ({
            let look = listing(state, readings, triggering);
            &&& forall|w: (Seq<char>, Level)| #[trigger]
                look.writes.contains(w) <==> exists|i: int|
                    0 <= i < look.rows.len() && is_owed(state, #[trigger] look.rows[i], w)
            &&& look.writes.len() <= readings.len()
            &&& forall|i: int|
                0 <= i < look.rows.len() ==> left_ducked(
                    finished(state, readings, triggering),
                    (#[trigger] look.rows[i]).id,
                ) == look.rows[i].is_ducked
        }),
{
    let any = any_triggering(state, triggering);
    let look = listing(state, readings, triggering);
    lemma_writes(state, readings, any, triggering);
    assert forall|i: int| 0 <= i < look.rows.len() implies left_ducked(
        finished(state, readings, triggering),
        (#[trigger] look.rows[i]).id,
    ) == look.rows[i].is_ducked by {
        assert(row_ids(look.rows)[i] == look.rows[i].id);
        assert(name_set(row_ids(look.rows)).contains(look.rows[i].id));
        assert(left_ducked(look.state, look.rows[i].id) == look.rows[i].is_ducked);
    }
}

/// When the program ends after a look, exactly those of the rows get their volume back that
/// are shown as ducked and whose own volume is known.
pub proof fn law_what_is_ducked_is_given_back(
    state: WindowsView,
    readings: Seq<ReadingView>,
    triggering: Seq<Seq<char>>,
    i: int,
)
    requires
        distinct_processes(readings),
        0 <= i < readings.len(),
    ensures
        ({
            let row = listing(state, readings, triggering).rows[i];
            needs_restore(finished(state, readings, triggering), row.id) <==> row.is_ducked
                && state.target_volume.dom().contains(row.id)
        }),
{
    let look = listing(state, readings, triggering);
    law_exactly_the_changes_are_written(state, readings, triggering);
    law_rows_show_what_was_read(state, readings, triggering);
    law_seen_processes_are_remembered(state, readings, triggering, i);
    assert(tells(
        look.rows[i],
        state,
        readings[i],
        triggering,
        somebody_talks(state, triggering),
    ));
}

proof fn lemma_read_devices(
    state: WindowsView,
    readings: Seq<ReadingView>,
    any: bool,
    triggering: Seq<Seq<char>>,
    i: int,
)
    requires
        distinct_processes(readings),
        0 <= i < readings.len(),
    ensures
        ({
            let after = rows_listed(state, readings, any, triggering).state;
            let id = process_session_id(readings[i].raw.pid);
            &&& after.device_raw.dom().contains(id)
            &&& after.device_raw[id] == readings[i].routed_device
            &&& after.device_confirmed.dom().contains(id) ==> after.device_confirmed[id]
                == believed(state, id, readings[i].routed_device)
            &&& believed(state, id, readings[i].routed_device) is Some
                ==> after.device_confirmed.dom().contains(id)
        }),
    decreases readings.len(),
{
    let init = readings.drop_last();
    lemma_init_distinct(readings);
    if i < init.len() {
        lemma_read_devices(state, init, any, triggering, i);
        assert(readings[i].raw.pid != readings[readings.len() - 1].raw.pid);
        lemma_other_ids(readings[i].raw.pid, readings.last().raw.pid);
    } else {
        lemma_not_read_yet(state, init, any, triggering, readings.last().raw.pid);
    }
}

/// What is remembered of a process that was seen: the volume that the user set, the device
/// as it was read, and the device that is believed.
pub proof fn law_seen_processes_are_remembered(
    state: WindowsView,
    readings: Seq<ReadingView>,
    triggering: Seq<Seq<char>>,
    i: int,
)
    requires
        distinct_processes(readings),
        0 <= i < readings.len(),
    ensures
        ({
            let after = finished(state, readings, triggering);
            let id = process_session_id(readings[i].raw.pid);
            &&& after.target_volume.dom().contains(id) == state.target_volume.dom().contains(id)
            &&& state.target_volume.dom().contains(id) ==> after.target_volume[id]
                == state.target_volume[id]
            &&& after.device_raw.dom().contains(id)
            &&& after.device_raw[id] == readings[i].routed_device
            &&& after.device_confirmed.dom().contains(id) ==> after.device_confirmed[id]
                == believed(state, id, readings[i].routed_device)
            &&& believed(state, id, readings[i].routed_device) is Some
                ==> after.device_confirmed.dom().contains(id)
        }),
        finished(state, readings, triggering).write_generations == state.write_generations,
        finished(state, readings, triggering).captures == state.captures,
{
    let any = any_triggering(state, triggering);
    let rows = listing(state, readings, triggering).rows;
    lemma_rows_listed(state, readings, any, triggering);
    lemma_read_devices(state, readings, any, triggering, i);
    assert(rows[i].id == process_session_id(readings[i].raw.pid));
    assert(row_ids(rows)[i] == rows[i].id);
    assert(name_set(row_ids(rows)).contains(rows[i].id));
}

proof fn lemma_icons(
    state: WindowsView,
    readings: Seq<ReadingView>,
    any: bool,
    triggering: Seq<Seq<char>>,
)
    ensures
        rows_listed(state, readings, any, triggering).state.settings.enabled
            == state.settings.enabled,
        rows_listed(state, readings, any, triggering).state.settings.priority_triggers
            == state.settings.priority_triggers,
        !rows_listed(state, readings, any, triggering).settings_changed ==> rows_listed(
            state,
            readings,
            any,
            triggering,
        ).state.settings == state.settings,
        forall|name: Seq<char>|
            !#[trigger] shows_icon(readings, name) || !state.settings.priority_triggers.contains(
                name,
            ) ==> same_icon_of(
                rows_listed(state, readings, any, triggering).state.settings,
                state.settings,
                name,
            ),
        forall|i: int|
            0 <= i < readings.len() && has_new_icon(#[trigger] readings[i])
                && state.settings.priority_triggers.contains(readings[i].raw.display_name)
                ==> rows_listed(state, readings, any, triggering).state.settings.icons.dom().contains(
            readings[i].raw.display_name),
    decreases readings.len(),
{
    if readings.len() > 0 {
        let init = readings.drop_last();
        let before = rows_listed(state, init, any, triggering).state.settings;
        let after = rows_listed(state, readings, any, triggering).state.settings;
        let last = readings.last();
        lemma_icons(state, init, any, triggering);
        assert forall|name: Seq<char>|
            !#[trigger] shows_icon(readings, name) || !after.priority_triggers.contains(
                name,
            ) implies same_icon_of(after, state.settings, name) by {
            if shows_icon(init, name) {
                let i = choose|i: int|
                    0 <= i < init.len() && has_new_icon(#[trigger] init[i])
                        && init[i].raw.display_name == name;
                assert(has_new_icon(readings[i]));
            }
            assert(same_icon_of(before, state.settings, name));
            if has_new_icon(last) && last.raw.display_name == name {
                assert(has_new_icon(readings[readings.len() - 1]));
            }
        }
        assert forall|i: int|
            0 <= i < readings.len() && has_new_icon(#[trigger] readings[i])
                && after.priority_triggers.contains(
                readings[i].raw.display_name,
            ) implies after.icons.dom().contains(readings[i].raw.display_name) by {
            if i < init.len() {
                assert(has_new_icon(init[i]));
            }
        }
    }
}

/// Whether a session is active and has an icon that is small enough to keep.
pub open spec fn has_new_icon(reading: ReadingView) -> bool {
    reading.raw.is_active && (reading.raw.icon_png matches Some(icon) && icon.len() <= 65_536)
}

/// Whether a session of a name has an icon to keep.
pub open spec fn shows_icon(readings: Seq<ReadingView>, name: Seq<char>) -> bool {
    exists|i: int|
        0 <= i < readings.len() && has_new_icon(#[trigger] readings[i])
            && readings[i].raw.display_name == name
}

/// Whether the same icon, or none, is kept for a name.
pub open spec fn same_icon_of(a: SettingsView, b: SettingsView, name: Seq<char>) -> bool {
    &&& a.icons.dom().contains(name) == b.icons.dom().contains(name)
    &&& b.icons.dom().contains(name) ==> a.icons[name] == b.icons[name]
}

/// A look changes the settings by icons only: it keeps those of active applications that may
/// trigger ducking, and says so whenever it changed anything.
pub proof fn law_a_look_only_keeps_icons(
    state: WindowsView,
    readings: Seq<ReadingView>,
    triggering: Seq<Seq<char>>,
)
    ensures
        ({
            let settings = finished(state, readings, triggering).settings;
            &&& settings.enabled == state.settings.enabled
            &&& settings.priority_triggers == state.settings.priority_triggers
            &&& settings != state.settings ==> listing(
                state,
                readings,
                triggering,
            ).settings_changed
            &&& forall|name: Seq<char>|
                !#[trigger] shows_icon(readings, name) || !settings.priority_triggers.contains(name)
                    ==> same_icon_of(settings, state.settings, name)
            &&& forall|i: int|
                0 <= i < readings.len() && has_new_icon(#[trigger] readings[i])
                    && settings.priority_triggers.contains(readings[i].raw.display_name)
                    ==> settings.icons.dom().contains(readings[i].raw.display_name)
        }),
{
    lemma_icons(state, readings, any_triggering(state, triggering), triggering);
}

proof fn lemma_saves(
    state: WindowsView,
    readings: Seq<ReadingView>,
    any: bool,
    triggering: Seq<Seq<char>>,
)
    ensures
        ({
            let after = rows_listed(state, readings, any, triggering);
            &&& after.settings_changed ==> exists|i: int|
                0 <= i < readings.len() && has_new_icon(#[trigger] readings[i])
                    && state.settings.priority_triggers.contains(readings[i].raw.display_name)
            &&& after.state.settings.priority_triggers == state.settings.priority_triggers
        }),
    decreases readings.len(),
{
    if readings.len() > 0 {
        let init = readings.drop_last();
        let before = rows_listed(state, init, any, triggering);
        lemma_saves(state, init, any, triggering);
        if before.settings_changed {
            let i = choose|i: int|
                0 <= i < init.len() && has_new_icon(#[trigger] init[i])
                    && state.settings.priority_triggers.contains(init[i].raw.display_name);
            assert(has_new_icon(readings[i]));
        } else if rows_listed(state, readings, any, triggering).settings_changed {
            assert(has_new_icon(readings[readings.len() - 1]));
        }
    }
}

/// The settings are saved after a look only if an active application that may trigger
/// ducking has an icon that is small enough to keep.
pub proof fn law_when_settings_are_saved(
    state: WindowsView,
    readings: Seq<ReadingView>,
    triggering: Seq<Seq<char>>,
)
    ensures
        listing(state, readings, triggering).settings_changed ==> exists|i: int|
            0 <= i < readings.len() && has_new_icon(#[trigger] readings[i])
                && state.settings.priority_triggers.contains(readings[i].raw.display_name),
{
    lemma_saves(state, readings, any_triggering(state, triggering), triggering);
}

/// Whether a session of a process is among those that were found.
pub open spec fn found(raw: Seq<RawView>, id: Seq<char>) -> bool {
    exists|k: int| 0 <= k < raw.len() && process_session_id((#[trigger] raw[k]).pid) == id
}

proof fn lemma_seeded(targets: Map<Seq<char>, Level>, raw: Seq<RawView>)
    ensures
        ({
            let after = targets_seeded(targets, raw);
            &&& forall|id: Seq<char>| #[trigger]
                after.dom().contains(id) <==> targets.dom().contains(id) || found(raw, id)
            &&& forall|id: Seq<char>| #[trigger]
                targets.dom().contains(id) ==> after[id] == targets[id]
            &&& forall|k: int|
                0 <= k < raw.len() && !targets.dom().contains(
                    process_session_id((#[trigger] raw[k]).pid),
                ) && !found(raw.take(k), process_session_id(raw[k].pid)) ==> after[
                    process_session_id(raw[k].pid)
                ] == raw[k].live_volume
        }),
    decreases raw.len(),
{
    let after = targets_seeded(targets, raw);
    if raw.len() > 0 {
        let init = raw.drop_last();
        let last = process_session_id(raw.last().pid);
        let before = targets_seeded(targets, init);
        lemma_seeded(targets, init);
        assert forall|id: Seq<char>| #[trigger] after.dom().contains(id) <==> targets.dom().contains(
            id,
        ) || found(raw, id) by {
            assert(before.dom().contains(id) <==> targets.dom().contains(id) || found(init, id));
            if found(init, id) {
                let k = choose|k: int|
                    0 <= k < init.len() && process_session_id((#[trigger] init[k]).pid) == id;
                assert(process_session_id(raw[k].pid) == id);
            }
            if found(raw, id) {
                let k = choose|k: int|
                    0 <= k < raw.len() && process_session_id((#[trigger] raw[k]).pid) == id;
                if k < init.len() {
                    assert(process_session_id(init[k].pid) == id);
                }
            }
            if id == last {
                assert(process_session_id(raw[raw.len() - 1].pid) == id);
            }
        }
        assert forall|k: int|
            0 <= k < raw.len() && !targets.dom().contains(
                process_session_id((#[trigger] raw[k]).pid),
            ) && !found(raw.take(k), process_session_id(raw[k].pid)) implies after[
            process_session_id(raw[k].pid)
        ] == raw[k].live_volume by {
            let id = process_session_id(raw[k].pid);
            if k < init.len() {
                assert(init[k] == raw[k]);
                assert(init.take(k) =~= raw.take(k));
                assert(found(init, id));
                assert(before.dom().contains(id));
            } else {
                assert(raw.take(k) =~= init);
                assert(!before.dom().contains(id));
            }
        }
    }
}

/// A process that is found for the first time gets the volume that was read as the one that
/// the user set. Nothing else that is remembered changes but what is listened to.
pub proof fn law_new_processes_start_at_their_volume(state: WindowsView, raw: Seq<RawView>)
    ensures
        ({
            let after = begun(state, raw);
            &&& forall|id: Seq<char>| #[trigger]
                after.target_volume.dom().contains(id) <==> state.target_volume.dom().contains(id)
                    || found(raw, id)
            &&& forall|id: Seq<char>| #[trigger]
                state.target_volume.dom().contains(id) ==> after.target_volume[id]
                    == state.target_volume[id]
            &&& forall|k: int|
                0 <= k < raw.len() && !state.target_volume.dom().contains(
                    process_session_id((#[trigger] raw[k]).pid),
                ) && !found(raw.take(k), process_session_id(raw[k].pid)) ==> after.target_volume[
                    process_session_id(raw[k].pid)
                ] == raw[k].live_volume
            &&& after.settings == state.settings
            &&& after.applied_ducked == state.applied_ducked
            &&& after.write_generations == state.write_generations
            &&& after.device_raw == state.device_raw
            &&& after.device_confirmed == state.device_confirmed
            &&& after.session_groups == state.session_groups
        }),
{
    lemma_seeded(state.target_volume, raw);
}

proof fn lemma_capture_values(
    captures: Map<Seq<char>, u32>,
    wanted: Seq<Seq<char>>,
    raw: Seq<RawView>,
)
    ensures
        ({
            let after = captures_started(captures, wanted, raw);
            &&& forall|id: Seq<char>| #[trigger]
                captures.dom().contains(id) ==> after.dom().contains(id) && after[id]
                    == captures[id]
            &&& forall|id: Seq<char>| #[trigger]
                after.dom().contains(id) && !captures.dom().contains(id) ==> process_session_id(
                    after[id],
                ) == id
        }),
    decreases raw.len(),
{
    if raw.len() > 0 {
        let before = captures_started(captures, wanted, raw.drop_last());
        let after = captures_started(captures, wanted, raw);
        lemma_capture_values(captures, wanted, raw.drop_last());
        assert forall|id: Seq<char>| #[trigger] captures.dom().contains(id) implies after.dom().contains(
            id,
        ) && after[id] == captures[id] by {
            assert(before.dom().contains(id));
        }
        assert forall|id: Seq<char>| #[trigger]
            after.dom().contains(id) && !captures.dom().contains(id) implies process_session_id(
            after[id],
        ) == id by {
            if before.dom().contains(id) {
                assert(process_session_id(before[id]) == id);
            }
        }
    }
}

/// A session is listened to exactly if ducking is on, the session is active, and its name is
/// among the triggers. Whoever is listened to anew is so under the id of the process; whoever
/// was listened to before and still is stays so.
pub proof fn law_who_is_listened_to(state: WindowsView, raw: Seq<RawView>, id: Seq<char>)
    ensures
        begun(state, raw).captures.dom().contains(id) <==> state.settings.enabled && exists|k: int|
            0 <= k < raw.len() && (#[trigger] raw[k]).is_active
                && state.settings.priority_triggers.contains(raw[k].display_name)
                && process_session_id(raw[k].pid) == id,
        begun(state, raw).captures.dom().contains(id) && state.captures.dom().contains(id)
            ==> begun(state, raw).captures[id] == state.captures[id],
        begun(state, raw).captures.dom().contains(id) && !state.captures.dom().contains(id)
            ==> process_session_id(begun(state, raw).captures[id]) == id,
{
    law_captures_are_the_wanted(state, raw, id);
    lemma_capture_values(state.captures, wanted_ids(state.settings, raw), raw);
    if exists|k: int|
        0 <= k < raw.len() && (#[trigger] raw[k]).is_active
            && state.settings.priority_triggers.contains(raw[k].display_name)
            && process_session_id(raw[k].pid) == id {
        let k = choose|k: int|
            0 <= k < raw.len() && (#[trigger] raw[k]).is_active
                && state.settings.priority_triggers.contains(raw[k].display_name)
                && process_session_id(raw[k].pid) == id;
        assert(crate::windows_listing::is_wanted(state.settings, raw[k]));
    }
    if crate::windows_laws::wanted_session(state, raw, id) {
        let k = choose|k: int|
            0 <= k < raw.len() && crate::windows_listing::is_wanted(
                state.settings,
                #[trigger] raw[k],
            ) && process_session_id(raw[k].pid) == id;
        assert(raw[k].is_active);
    }
}

/// A volume that the user sets for a process is written as it is, or times 0.22 if the
/// process is ducked at the moment.
pub proof fn law_what_is_written_for_a_set_volume(state: WindowsView, pid: u32, volume: Level)
    ensures
        written_volume(state, pid, volume) == if left_ducked(state, process_session_id(pid)) {
            volume.scaled(Level { bits: 0x3e61_47ae })
        } else {
            volume
        },
{
}

proof fn lemma_targets_set_value(
    targets: Map<Seq<char>, Level>,
    pids: Seq<u32>,
    volume: Level,
    id: Seq<char>,
)
    ensures
        ({
            let after = targets_set(targets, pids, volume);
            let named = exists|k: int|
                0 <= k < pids.len() && process_session_id(#[trigger] pids[k]) == id;
            &&& named ==> after.dom().contains(id) && after[id] == volume
            &&& !named ==> after.dom().contains(id) == targets.dom().contains(id) && (
            targets.dom().contains(id) ==> after[id] == targets[id])
        }),
    decreases pids.len(),
{
    if pids.len() > 0 {
        let init = pids.drop_last();
        lemma_targets_set_value(targets, init, volume, id);
        if exists|k: int| 0 <= k < init.len() && process_session_id(#[trigger] init[k]) == id {
            let k = choose|k: int|
                0 <= k < init.len() && process_session_id(#[trigger] init[k]) == id;
            assert(process_session_id(pids[k]) == id);
        }
        if exists|k: int| 0 <= k < pids.len() && process_session_id(#[trigger] pids[k]) == id {
            let k = choose|k: int|
                0 <= k < pids.len() && process_session_id(#[trigger] pids[k]) == id;
            if k < init.len() {
                assert(process_session_id(init[k]) == id);
            }
        }
        assert(process_session_id(pids[pids.len() - 1]) == process_session_id(pids.last()));
    }
}

/// Setting a volume sets it for exactly the processes that the session stands for.
pub proof fn law_a_set_volume_is_remembered(
    targets: Map<Seq<char>, Level>,
    pids: Seq<u32>,
    volume: Level,
    id: Seq<char>,
)
    ensures
        ({
            let after = targets_set(targets, pids, volume);
            let named = exists|k: int|
                0 <= k < pids.len() && process_session_id(#[trigger] pids[k]) == id;
            &&& named ==> after.dom().contains(id) && after[id] == volume
            &&& !named ==> after.dom().contains(id) == targets.dom().contains(id) && (
            targets.dom().contains(id) ==> after[id] == targets[id])
        }),
{
    lemma_targets_set_value(targets, pids, volume, id);
}

/// The id of a process stands for it alone, unless a merged row has that id; the id of a
/// merged row that is not shown stands for nothing.
pub proof fn law_what_an_id_stands_for(state: WindowsView, pid: u32)
    ensures
        !state.session_groups.dom().contains(process_session_id(pid)) ==> member_pids(
            state,
            process_session_id(pid),
        ) == Some(seq![pid]),
        !state.session_groups.dom().contains(crate::windows::group_session_id(pid)) ==> member_pids(
            state,
            crate::windows::group_session_id(pid),
        ) is None,
        forall|id: Seq<char>| #[trigger]
            state.session_groups.dom().contains(id) ==> member_pids(state, id) == Some(
                state.session_groups[id],
            ),
{
    law_session_id_names_its_process(pid);
    law_group_id_names_no_process(pid);
}

/// A reading of one session's output device changes nothing of the others.
pub proof fn law_reading_a_device_leaves_the_others_alone(
    state: WindowsView,
    id: Seq<char>,
    read: Option<Seq<char>>,
    other: Seq<char>,
    other_read: Option<Seq<char>>,
)
    requires
        other != id,
    ensures
        debounced(state, id, read).1 == believed(state, id, read),
        believed(debounced(state, id, read).0, other, other_read) == believed(
            state,
            other,
            other_read,
        ),
        debounced(state, id, read).0.target_volume == state.target_volume,
        debounced(state, id, read).0.applied_ducked == state.applied_ducked,
        debounced(state, id, read).0.captures == state.captures,
        debounced(state, id, read).0.settings == state.settings,
        debounced(state, id, read).0.write_generations == state.write_generations,
        debounced(state, id, read).0.session_groups == state.session_groups,
{
}

/// What was read of a session holds what its fields say.
pub proof fn law_a_reading_shows_its_fields(reading: SessionReading)
    ensures
        ({
            let shown = reading@.raw;
            let raw = reading.raw;
            &&& (shown.pid, shown.live_volume) == (raw.pid, raw.live_volume)
            &&& (shown.muted, shown.balance, shown.is_active) == (
                raw.muted,
                raw.balance,
                raw.is_active,
            )
            &&& shown.display_name == raw.display_name@
            &&& shown.icon_png == opt_bytes(raw.icon_png)
            &&& reading@.routed_device == opt_text(reading.routed_device)
            &&& raw@ == shown
        }),
{
}

/// What the backend holds is what its fields hold.
pub proof fn law_the_backend_shows_its_fields(backend: WindowsMixerBackend)
    ensures
        backend@.settings == backend.ducking_settings@,
        backend@.captures == backend.captures@,
        backend@.target_volume == backend.target_volume@,
        backend@.applied_ducked == backend.applied_ducked@,
        backend@.write_generations == backend.write_generations@,
        backend@.device_raw.dom() == backend.output_device_raw@.dom(),
        backend@.device_confirmed.dom() == backend.output_device_confirmed@.dom(),
        backend@.session_groups.dom() == backend.session_groups@.dom(),
        forall|id: Seq<char>| #[trigger]
            backend@.session_groups.dom().contains(id) ==> backend@.session_groups[id]
                == backend.session_groups@[id]@,
        forall|id: Seq<char>| #[trigger]
            backend@.device_confirmed.dom().contains(id) ==> backend@.device_confirmed[id]
                == opt_text(backend.output_device_confirmed@[id]),
{
    assert(backend@.device_raw.dom() =~= backend.output_device_raw@.dom());
    assert(backend@.device_confirmed.dom() =~= backend.output_device_confirmed@.dom());
    assert(backend@.session_groups.dom() =~= backend.session_groups@.dom());
}

/// Lists of what was found, read and is to be written hold their elements, each in its place.
pub proof fn law_lists_hold_their_elements(
    raw: Seq<RawSession>,
    readings: Seq<SessionReading>,
    writes: Seq<(String, Level)>,
    restores: Seq<(String, Level)>,
)
    ensures
        raw_views(raw).len() == raw.len(),
        forall|i: int| 0 <= i < raw.len() ==> #[trigger] raw_views(raw)[i] == raw[i]@,
        reading_views(readings).len() == readings.len(),
        forall|i: int|
            0 <= i < readings.len() ==> #[trigger] reading_views(readings)[i] == readings[i]@,
        write_views(writes).len() == writes.len(),
        forall|i: int|
            0 <= i < writes.len() ==> #[trigger] write_views(writes)[i] == (
                writes[i].0@,
                writes[i].1,
            ),
        restore_ids(restores).len() == restores.len(),
        forall|i: int|
            0 <= i < restores.len() ==> #[trigger] restore_ids(restores)[i] == restores[i].0@,
{
}

} // verus!
