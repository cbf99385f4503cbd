//! What holds of every look at the sessions on Windows.

use vstd::prelude::*;

use crate::duck_detect::ducked_volume;
use crate::level::Level;
use crate::name_map::name_set;
use crate::seqs::lemma_push_members;
use crate::session::generation_of;
use crate::windows::{
    law_session_id_names_its_process, law_session_ids_differ, process_session_id, targets_set,
    was_ducked, WindowsView,
};
use crate::windows_listing::{
    any_triggering, begun, captures_started, finished, is_trigger, is_wanted, lemma_rows_listed,
    listing, row_ids, rows_listed, target_of, targets_seeded, wanted_ids, RawView, ReadingView,
};

verus! {

/// Whether a session is to be ducked: something triggers, and it is not this session.
pub open spec fn ducks(state: WindowsView, id: Seq<char>, triggering: Seq<Seq<char>>) -> bool {
    any_triggering(state, triggering) && !is_trigger(state, id, triggering)
}

/// The volume that a session is played at.
pub open spec fn played_volume(
    state: WindowsView,
    reading: ReadingView,
    triggering: Seq<Seq<char>>,
) -> Level {
    if ducks(state, process_session_id(reading.raw.pid), triggering) {
        ducked_volume(target_of(state, reading.raw))
    } else {
        target_of(state, reading.raw)
    }
}

/// Whether no process occurs twice.
pub open spec fn distinct_processes(readings: Seq<ReadingView>) -> bool {
    forall|i: int, j: int|
        0 <= i < j < readings.len() ==> (#[trigger] readings[i]).raw.pid != (
        #[trigger] readings[j]).raw.pid
}

/// What the row of a process says: it triggers or is ducked, never both. The volume shown
/// is the one that the user set, whether it is ducked or not; the effective volume is the
/// one played. The row carries the count of the session's changes.
pub proof fn law_rows(
    state: WindowsView,
    readings: Seq<ReadingView>,
    triggering: Seq<Seq<char>>,
    i: int,
)
    requires
        0 <= i < readings.len(),
    ensures
        ({
            let row = listing(state, readings, triggering).rows[i];
            let id = process_session_id(readings[i].raw.pid);
            &&& row.id == id
            &&& row.display_name == readings[i].raw.display_name
            &&& row.is_duck_trigger == is_trigger(state, id, triggering)
            &&& row.is_ducked == ducks(state, id, triggering)
            &&& !(row.is_duck_trigger && row.is_ducked)
            &&& row.volume == target_of(state, readings[i].raw)
            &&& row.effective_volume == played_volume(state, readings[i], triggering)
            &&& row.write_generation == generation_of(state.write_generations, id)
        }),
        listing(state, readings, triggering).rows.len() == readings.len(),
{
    lemma_row(state, readings, any_triggering(state, triggering), triggering, i);
}

proof fn lemma_row(
    state: WindowsView,
    readings: Seq<ReadingView>,
    any: bool,
    triggering: Seq<Seq<char>>,
    i: int,
)
    requires
        0 <= i < readings.len(),
    ensures
        ({
            let row = rows_listed(state, readings, any, triggering).rows[i];
            let id = process_session_id(readings[i].raw.pid);
            let ducked = any && !is_trigger(state, id, triggering);
            &&& row.id == id
            &&& row.display_name == readings[i].raw.display_name
            &&& row.is_duck_trigger == is_trigger(state, id, triggering)
            &&& row.is_ducked == ducked
            &&& row.volume == target_of(state, readings[i].raw)
            &&& row.effective_volume == if ducked {
                ducked_volume(target_of(state, readings[i].raw))
            } else {
                target_of(state, readings[i].raw)
            }
            &&& row.write_generation == generation_of(state.write_generations, id)
        }),
        rows_listed(state, readings, any, triggering).rows.len() == readings.len(),
    decreases readings.len(),
{
    let init = readings.drop_last();
    lemma_rows_listed(state, readings, any, triggering);
    lemma_rows_listed(state, init, any, triggering);
    if i < init.len() {
        lemma_row(state, init, any, triggering, i);
    }
}

/// While ducking is off, or nothing may trigger it, nobody is ducked.
pub proof fn law_nobody_is_ducked_while_off(
    state: WindowsView,
    raw: Seq<RawView>,
    readings: Seq<ReadingView>,
    triggering: Seq<Seq<char>>,
    i: int,
)
    requires
        !state.settings.enabled || state.settings.priority_triggers.len() == 0,
        0 <= i < readings.len(),
    ensures
        !listing(begun(state, raw), readings, triggering).rows[i].is_ducked,
{
    law_rows(begun(state, raw), readings, triggering, i);
}

proof fn lemma_seeded_keeps(targets: Map<Seq<char>, Level>, raw: Seq<RawView>)
    ensures
        forall|id: Seq<char>| #[trigger]
            targets.dom().contains(id) ==> targets_seeded(targets, raw).dom().contains(id)
                && targets_seeded(targets, raw)[id] == targets[id],
    decreases raw.len(),
{
    if raw.len() > 0 {
        lemma_seeded_keeps(targets, raw.drop_last());
    }
}

/// A look at the sessions never changes a volume that the user has set, whatever volume
/// ducking has left the session at.
pub proof fn law_looking_keeps_the_target(state: WindowsView, raw: Seq<RawView>, id: Seq<char>)
    requires
        state.target_volume.dom().contains(id),
    ensures
        begun(state, raw).target_volume.dom().contains(id),
        begun(state, raw).target_volume[id] == state.target_volume[id],
{
    lemma_seeded_keeps(state.target_volume, raw);
}

proof fn lemma_targets_set(
    targets: Map<Seq<char>, Level>,
    pids: Seq<u32>,
    volume: Level,
    pid: u32,
)
    requires
        pids.contains(pid),
    ensures
        targets_set(targets, pids, volume).dom().contains(process_session_id(pid)),
        targets_set(targets, pids, volume)[process_session_id(pid)] == volume,
    decreases pids.len(),
{
    let init = pids.drop_last();
    lemma_push_members(init, pids.last());
    assert(init.push(pids.last()) == pids);
    if init.contains(pid) {
        lemma_targets_set(targets, init, volume, pid);
    } else {
        assert(pid == pids.last());
    }
}

/// A volume that is set for some processes changes that of no other one.
pub proof fn law_set_volume_leaves_the_others_alone(
    targets: Map<Seq<char>, Level>,
    pids: Seq<u32>,
    volume: Level,
    other: u32,
)
    requires
        !pids.contains(other),
    ensures
        ({
            let id = process_session_id(other);
            let after = targets_set(targets, pids, volume);
            &&& after.dom().contains(id) == targets.dom().contains(id)
            &&& targets.dom().contains(id) ==> after[id] == targets[id]
        }),
    decreases pids.len(),
{
    if pids.len() > 0 {
        let init = pids.drop_last();
        lemma_push_members(init, pids.last());
        assert(init.push(pids.last()) == pids);
        assert(init.push(pids.last()).contains(other) == (init.contains(other) || other
            == pids.last()));
        law_set_volume_leaves_the_others_alone(targets, init, volume, other);
        law_session_ids_differ(pids.last(), other);
    }
}

/// A volume that was set for some processes is shown by the next look at each of them.
pub proof fn law_set_volume_is_shown(
    state: WindowsView,
    pids: Seq<u32>,
    volume: Level,
    raw: Seq<RawView>,
    readings: Seq<ReadingView>,
    triggering: Seq<Seq<char>>,
    i: int,
)
    requires
        0 <= i < readings.len(),
        pids.contains(readings[i].raw.pid),
    ensures
        ({
            let set = WindowsView {
                target_volume: targets_set(state.target_volume, pids, volume),
                ..state
            };
            listing(begun(set, raw), readings, triggering).rows[i].volume == volume
        }),
{
    let set = WindowsView {
        target_volume: targets_set(state.target_volume, pids, volume),
        ..state
    };
    let id = process_session_id(readings[i].raw.pid);
    lemma_targets_set(state.target_volume, pids, volume, readings[i].raw.pid);
    law_looking_keeps_the_target(set, raw, id);
    law_rows(begun(set, raw), readings, triggering, i);
}

proof fn lemma_applied(
    state: WindowsView,
    readings: Seq<ReadingView>,
    any: bool,
    triggering: Seq<Seq<char>>,
    i: int,
)
    requires
        0 <= i < readings.len(),
    ensures
        ({
            let id = process_session_id(readings[i].raw.pid);
            was_ducked(rows_listed(state, readings, any, triggering).state, id) == (any
                && !is_trigger(state, id, triggering))
        }),
    decreases readings.len(),
{
    let init = readings.drop_last();
    lemma_rows_listed(state, init, any, triggering);
    if i < init.len() {
        lemma_applied(state, init, any, triggering, i);
    }
}

/// A look that finds the same sessions to be ducked as the look before writes no volume.
pub proof fn law_unchanged_ducking_writes_nothing(
    state: WindowsView,
    readings: Seq<ReadingView>,
    triggering: Seq<Seq<char>>,
    later: WindowsView,
    later_readings: Seq<ReadingView>,
    later_triggering: Seq<Seq<char>>,
)
    requires
        later.applied_ducked == finished(state, readings, triggering).applied_ducked,
        forall|i: int|
            0 <= i < later_readings.len() ==> looked_at(
                readings,
                (#[trigger] later_readings[i]).raw.pid,
            ) && ducks(
                later,
                process_session_id(later_readings[i].raw.pid),
                later_triggering,
            ) == ducks(state, process_session_id(later_readings[i].raw.pid), triggering),
    ensures
        listing(later, later_readings, later_triggering).writes.len() == 0,
{
    assert forall|i: int| 0 <= i < later_readings.len() implies {
        let id = process_session_id((#[trigger] later_readings[i]).raw.pid);
        was_ducked(later, id) == ducks(later, id, later_triggering)
    } by {
        let pid = later_readings[i].raw.pid;
        let k = choose|k: int|
            0 <= k < readings.len() && (#[trigger] readings[k]).raw.pid == pid;
        let any = any_triggering(state, triggering);
        let rows = listing(state, readings, triggering).rows;
        lemma_applied(state, readings, any, triggering, k);
        lemma_rows_listed(state, readings, any, triggering);
        assert(rows[k].id == process_session_id(pid));
        assert(row_ids(rows)[k] == process_session_id(pid));
        assert(name_set(row_ids(rows)).contains(process_session_id(pid)));
    }
    lemma_nothing_written(
        later,
        later_readings,
        any_triggering(later, later_triggering),
        later_triggering,
    );
}

/// Whether a process is among those that were looked at.
pub open spec fn looked_at(readings: Seq<ReadingView>, pid: u32) -> bool {
    exists|k: int| 0 <= k < readings.len() && (#[trigger] readings[k]).raw.pid == pid
}

proof fn lemma_nothing_written(
    state: WindowsView,
    readings: Seq<ReadingView>,
    any: bool,
    triggering: Seq<Seq<char>>,
)
    requires
        forall|i: int|
            0 <= i < readings.len() ==> {
                let id = process_session_id((#[trigger] readings[i]).raw.pid);
                was_ducked(state, id) == (any && !is_trigger(state, id, triggering))
            },
    ensures
        rows_listed(state, readings, any, triggering).writes.len() == 0,
        rows_listed(state, readings, any, triggering).state.applied_ducked == state.applied_ducked,
    decreases readings.len(),
{
    if readings.len() > 0 {
        let init = readings.drop_last();
        assert forall|i: int| 0 <= i < init.len() implies {
            let id = process_session_id((#[trigger] init[i]).raw.pid);
            was_ducked(state, id) == (any && !is_trigger(state, id, triggering))
        } by {
            assert(init[i] == readings[i]);
        }
        lemma_nothing_written(state, init, any, triggering);
        lemma_rows_listed(state, init, any, triggering);
        assert(readings.last() == readings[readings.len() - 1]);
    }
}

/// A session that starts or ceases to be ducked has its volume written at once: the
/// ducked one, or the one that the user set. So ducking that ends is undone.
pub proof fn law_changed_ducking_is_written(
    state: WindowsView,
    readings: Seq<ReadingView>,
    triggering: Seq<Seq<char>>,
    i: int,
)
    requires
        distinct_processes(readings),
        0 <= i < readings.len(),
        was_ducked(state, process_session_id(readings[i].raw.pid)) != ducks(
            state,
            process_session_id(readings[i].raw.pid),
            triggering,
        ),
    ensures
        listing(state, readings, triggering).writes.contains(
            (
                process_session_id(readings[i].raw.pid),
                played_volume(state, readings[i], triggering),
            ),
        ),
{
    lemma_written(state, readings, any_triggering(state, triggering), triggering, i);
}

proof fn lemma_untouched(
    state: WindowsView,
    readings: Seq<ReadingView>,
    any: bool,
    triggering: Seq<Seq<char>>,
    pid: u32,
)
    requires
        !looked_at(readings, pid),
    ensures
        was_ducked(rows_listed(state, readings, any, triggering).state, process_session_id(pid))
            == was_ducked(state, process_session_id(pid)),
    decreases readings.len(),
{
    if readings.len() > 0 {
        let init = readings.drop_last();
        assert(!looked_at(init, pid)) by {
            if looked_at(init, pid) {
                let k = choose|k: int|
                    0 <= k < init.len() && (#[trigger] init[k]).raw.pid == pid;
                assert(readings[k].raw.pid == pid);
            }
        }
        lemma_untouched(state, init, any, triggering, pid);
        assert(readings[readings.len() - 1].raw.pid != pid);
        law_session_id_names_its_process(pid);
        law_session_id_names_its_process(readings.last().raw.pid);
    }
}

proof fn lemma_written(
    state: WindowsView,
    readings: Seq<ReadingView>,
    any: bool,
    triggering: Seq<Seq<char>>,
    i: int,
)
    requires
        distinct_processes(readings),
        0 <= i < readings.len(),
        ({
            let id = process_session_id(readings[i].raw.pid);
            was_ducked(state, id) != (any && !is_trigger(state, id, triggering))
        }),
    ensures
        ({
            let id = process_session_id(readings[i].raw.pid);
            let volume = if any && !is_trigger(state, id, triggering) {
                ducked_volume(target_of(state, readings[i].raw))
            } else {
                target_of(state, readings[i].raw)
            };
            rows_listed(state, readings, any, triggering).writes.contains((id, volume))
        }),
    decreases readings.len(),
{
    let init = readings.drop_last();
    let before = rows_listed(state, init, any, triggering);
    let after = rows_listed(state, readings, any, triggering);
    lemma_rows_listed(state, init, any, triggering);
    assert(distinct_processes(init)) by {
        assert forall|a: int, b: int| 0 <= a < b < init.len() implies (#[trigger] init[a]).raw.pid
            != (#[trigger] init[b]).raw.pid by {
            assert(readings[a].raw.pid != readings[b].raw.pid);
        }
    }
    if i < init.len() {
        lemma_written(state, init, any, triggering, i);
        if after.writes != before.writes {
            lemma_push_members(before.writes, after.writes.last());
            assert(after.writes == before.writes.push(after.writes.last()));
        }
    } else {
        let pid = readings[i].raw.pid;
        assert(!looked_at(init, pid)) by {
            if looked_at(init, pid) {
                let k = choose|k: int|
                    0 <= k < init.len() && (#[trigger] init[k]).raw.pid == pid;
                assert(readings[k].raw.pid != readings[i].raw.pid);
            }
        }
        lemma_untouched(state, init, any, triggering, pid);
        assert(after.writes.last() == after.writes[after.writes.len() - 1]);
    }
}

proof fn lemma_wanted(state: WindowsView, raw: Seq<RawView>)
    ensures
        forall|id: Seq<char>| #[trigger]
            wanted_ids(state.settings, raw).contains(id) <==> wanted_session(state, raw, id),
    decreases raw.len(),
{
    if raw.len() > 0 {
        let init = raw.drop_last();
        let before = wanted_ids(state.settings, init);
        let now = wanted_ids(state.settings, raw);
        lemma_wanted(state, init);
        lemma_push_members(before, process_session_id(raw.last().pid));
        assert forall|id: Seq<char>| #[trigger] now.contains(id) <==> wanted_session(
            state,
            raw,
            id,
        ) by {
            assert(before.contains(id) <==> wanted_session(state, init, id));
            if wanted_session(state, init, id) {
                let k = choose|k: int|
                    0 <= k < init.len() && is_wanted(state.settings, #[trigger] init[k])
                        && process_session_id(init[k].pid) == id;
                assert(is_wanted(state.settings, raw[k]));
            }
            if wanted_session(state, raw, id) {
                let k = choose|k: int|
                    0 <= k < raw.len() && is_wanted(state.settings, #[trigger] raw[k])
                        && process_session_id(raw[k].pid) == id;
                if k < init.len() {
                    assert(is_wanted(state.settings, init[k]));
                }
            }
            let last = raw[raw.len() - 1];
            assert(last == raw.last());
            if is_wanted(state.settings, last) {
                assert(now == before.push(process_session_id(last.pid)));
                assert(before.push(process_session_id(last.pid)).contains(id) == (before.contains(
                    id,
                ) || id == process_session_id(last.pid)));
            }
        }
    }
}

/// Whether an id is that of an active session whose name may trigger ducking.
pub open spec fn wanted_session(state: WindowsView, raw: Seq<RawView>, id: Seq<char>) -> bool {
    exists|k: int|
        0 <= k < raw.len() && is_wanted(state.settings, #[trigger] raw[k]) && process_session_id(
            raw[k].pid,
        ) == id
}

proof fn lemma_started(captures: Map<Seq<char>, u32>, wanted: Seq<Seq<char>>, raw: Seq<RawView>)
    ensures
        forall|k: int|
            0 <= k < raw.len() && wanted.contains(process_session_id((#[trigger] raw[k]).pid))
                ==> captures_started(captures, wanted, raw).dom().contains(
                process_session_id(raw[k].pid),
            ),
        forall|id: Seq<char>| #[trigger]
            captures.dom().contains(id) ==> captures_started(captures, wanted, raw).dom().contains(
                id,
            ),
    decreases raw.len(),
{
    if raw.len() > 0 {
        let init = raw.drop_last();
        lemma_started(captures, wanted, init);
        assert forall|k: int|
            0 <= k < raw.len() && wanted.contains(
                process_session_id((#[trigger] raw[k]).pid),
            ) implies captures_started(captures, wanted, raw).dom().contains(
            process_session_id(raw[k].pid),
        ) by {
            if k < init.len() {
                assert(init[k] == raw[k]);
            }
        }
    }
}

/// Exactly the active sessions whose names may trigger ducking are listened to, and none
/// while ducking is off.
pub proof fn law_captures_are_the_wanted(state: WindowsView, raw: Seq<RawView>, id: Seq<char>)
    ensures
        begun(state, raw).captures.dom().contains(id) <==> state.settings.enabled && wanted_session(
            state,
            raw,
            id,
        ),
{
    let wanted = wanted_ids(state.settings, raw);
    lemma_wanted(state, raw);
    lemma_started(state.captures, wanted, raw);
    assert(wanted.contains(id) <==> wanted_session(state, raw, id));
    assert(name_set(wanted).contains(id) <==> wanted.contains(id));
    if wanted_session(state, raw, id) {
        let k = choose|k: int|
            0 <= k < raw.len() && is_wanted(state.settings, #[trigger] raw[k])
                && process_session_id(raw[k].pid) == id;
        assert(wanted.contains(process_session_id(raw[k].pid)));
        assert(state.settings.priority_triggers.contains(raw[k].display_name));
        assert(state.settings.priority_triggers.len() > 0);
    }
}

/// Nothing is remembered of a session that was not seen: what is kept per process is
/// bounded by the processes of the last look.
pub proof fn law_gone_sessions_are_forgotten(
    state: WindowsView,
    readings: Seq<ReadingView>,
    triggering: Seq<Seq<char>>,
    pid: u32,
)
    requires
        !looked_at(readings, pid),
    ensures
        ({
            let id = process_session_id(pid);
            let after = finished(state, readings, triggering);
            &&& !after.target_volume.dom().contains(id)
            &&& !after.applied_ducked.dom().contains(id)
            &&& !after.device_raw.dom().contains(id)
            &&& !after.device_confirmed.dom().contains(id)
        }),
{
    let rows = listing(state, readings, triggering).rows;
    let id = process_session_id(pid);
    let any = any_triggering(state, triggering);
    lemma_rows_listed(state, readings, any, triggering);
    assert(!name_set(row_ids(rows)).contains(id)) by {
        if row_ids(rows).contains(id) {
            let k = choose|k: int| 0 <= k < row_ids(rows).len() && row_ids(rows)[k] == id;
            assert(rows[k].id == process_session_id(readings[k].raw.pid));
            law_session_id_names_its_process(pid);
            law_session_id_names_its_process(readings[k].raw.pid);
            assert(readings[k].raw.pid == pid);
        }
    }
}

} // verus!
