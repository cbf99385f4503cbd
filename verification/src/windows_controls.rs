//! Choosing among audio session controls on Windows, and the requests that act on them.

use vstd::prelude::*;

use crate::level::{Level, ZERO_BITS};
use crate::name_map::{listed, texts, NameMap};
use crate::seqs::lemma_push_members;
use crate::session::{
    asks_for_triggers, opt_bytes, opt_text, platform_error, running_well_known,
    seed_communication_apps, set_enabled, toggle_priority_trigger, toggled, well_known_names, DuckingSettings, MixerError, MixerErrorView,
    OutputDevice, SettingsView,
};
use crate::text::{decimal, same_text, with_number};
use crate::windows::{member_pids, WindowsMixerBackend, WindowsView};

verus! {

/// The states of an audio session, as Windows numbers them.
pub const SESSION_INACTIVE: i32 = 0;

pub const SESSION_ACTIVE: i32 = 1;

pub const SESSION_EXPIRED: i32 = 2;

/// Active before inactive before anything else.
pub open spec fn state_rank(state: i32) -> u8 {
    if state == SESSION_ACTIVE {
        2
    } else if state == SESSION_INACTIVE {
        1
    } else {
        0
    }
}

pub fn session_state_rank(state: i32) -> (rank: u8)
    ensures
        rank == state_rank(state),
{
    if state == SESSION_ACTIVE {
        2
    } else if state == SESSION_INACTIVE {
        1
    } else {
        0
    }
}

/// What was read of one audio session control.
#[derive(Clone, Copy, Debug, PartialEq, Eq, Structural)]
pub struct ControlReading {
    /// The process that owns it; 0 if none does.
    pub pid: u32,
    /// Whether it is that of the system sounds.
    pub is_system_sounds: bool,
    pub state: i32,
}

/// Whether a control is of use: a process owns it, it is not that of the system sounds,
/// and it has not expired.
pub open spec fn is_live(control: ControlReading) -> bool {
    control.pid != 0 && !control.is_system_sounds && control.state != SESSION_EXPIRED
}

/// Whether a control is a live one of the given process.
pub open spec fn is_live_of(control: ControlReading, pid: u32) -> bool {
    is_live(control) && control.pid == pid
}

/// The audio session controls of one process, by their positions.
#[derive(Debug, PartialEq)]
pub struct ProcessControls {
    pub pid: u32,
    pub controls: Vec<usize>,
}

pub open spec fn pids_in(groups: Seq<ProcessControls>) -> Seq<u32> {
    groups.map_values(|g: ProcessControls| g.pid)
}

/// Whether `places` are exactly those of the live controls of `pid`, in order.
pub open spec fn places_of(controls: Seq<ControlReading>, pid: u32, places: Seq<usize>) -> bool {
    &&& forall|k: int|
        0 <= k < places.len() ==> (#[trigger] places[k]) < controls.len() && is_live_of(
            controls[places[k] as int],
            pid,
        )
    &&& forall|k: int, m: int|
        0 <= k < m < places.len() ==> (#[trigger] places[k]) < (#[trigger] places[m])
    &&& forall|i: int|
        #![trigger controls[i]]
        0 <= i < controls.len() && is_live_of(controls[i], pid) ==> exists|k: int|
            0 <= k < places.len() && #[trigger] places[k] == i
}

/// Whether `groups` hold every process with a live control, each once, with the places of
/// its live controls.
pub open spec fn controls_by_pid(
    controls: Seq<ControlReading>,
    groups: Seq<ProcessControls>,
) -> bool {
    &&& pids_in(groups).no_duplicates()
    &&& forall|g: int|
        0 <= g < groups.len() ==> (#[trigger] groups[g]).controls@.len() > 0 && places_of(
            controls,
            groups[g].pid,
            groups[g].controls@,
        )
    &&& forall|i: int|
        0 <= i < controls.len() && is_live(#[trigger] controls[i]) ==> pids_in(groups).contains(
            controls[i].pid,
        )
}

/// What is handed out for a process is a live control of that process: never one that has
/// expired, nor that of the system sounds.
pub proof fn law_controls_handed_out_are_live(
    controls: Seq<ControlReading>,
    groups: Seq<ProcessControls>,
    g: int,
    k: int,
)
    requires
        controls_by_pid(controls, groups),
        0 <= g < groups.len(),
        0 <= k < groups[g].controls@.len(),
    ensures
        groups[g].pid != 0,
        groups[g].controls@[k] < controls.len(),
        is_live_of(controls[groups[g].controls@[k] as int], groups[g].pid),
{
    let places = groups[g].controls@;
    assert(places_of(controls, groups[g].pid, places));
    assert(is_live_of(controls[places[k] as int], groups[g].pid));
}

proof fn lemma_places_grow(controls: Seq<ControlReading>, pid: u32, places: Seq<usize>, i: usize)
    requires
        i < controls.len(),
        is_live_of(controls[i as int], pid),
        places_of(controls.take(i as int), pid, places),
    ensures
        places_of(controls.take(i + 1), pid, places.push(i)),
{
    let before = controls.take(i as int);
    let after = controls.take(i + 1);
    let grown = places.push(i);
    assert forall|k: int| 0 <= k < grown.len() implies (#[trigger] grown[k]) < after.len()
        && is_live_of(after[grown[k] as int], pid) by {
        if k < places.len() {
            assert(places[k] < before.len() && is_live_of(before[places[k] as int], pid));
        }
    }
    assert forall|k: int, m: int| 0 <= k < m < grown.len() implies (#[trigger] grown[k]) < (
    #[trigger] grown[m]) by {
        if m < places.len() {
            assert(places[k] < places[m]);
        } else {
            assert(places[k] < before.len());
        }
    }
    assert forall|j: int|
        #![trigger after[j]]
        0 <= j < after.len() && is_live_of(after[j], pid) implies exists|k: int|
        0 <= k < grown.len() && #[trigger] grown[k] == j by {
        if j < i {
            assert(is_live_of(before[j], pid));
            let k = choose|k: int| 0 <= k < places.len() && #[trigger] places[k] == j;
            assert(grown[k] == j);
        } else {
            assert(grown[places.len() as int] == j);
        }
    }
}

proof fn lemma_places_stay(controls: Seq<ControlReading>, pid: u32, places: Seq<usize>, i: int)
    requires
        0 <= i < controls.len(),
        !is_live_of(controls[i], pid),
        places_of(controls.take(i), pid, places),
    ensures
        places_of(controls.take(i + 1), pid, places),
{
    let before = controls.take(i);
    let after = controls.take(i + 1);
    assert forall|k: int| 0 <= k < places.len() implies (#[trigger] places[k]) < after.len()
        && is_live_of(after[places[k] as int], pid) by {
        assert(places[k] < before.len() && is_live_of(before[places[k] as int], pid));
    }
    assert forall|j: int|
        #![trigger after[j]]
        0 <= j < after.len() && is_live_of(after[j], pid) implies exists|k: int|
        0 <= k < places.len() && #[trigger] places[k] == j by {
        assert(is_live_of(before[j], pid));
    }
}

/// Groups the live audio session controls by the process that owns them. Those that have
/// expired, those of the system sounds and those that no process owns are left out.
pub fn enumerate_session_controls_by_pid(controls: &Vec<ControlReading>) -> (groups: Vec<
    ProcessControls,
>)
    ensures
        controls_by_pid(controls@, groups@),
{
    let mut groups: Vec<ProcessControls> = Vec::new();
    let mut i: usize = 0;
    while i < controls.len()
        invariant
            i <= controls@.len(),
            controls_by_pid(controls@.take(i as int), groups@),
        decreases controls@.len() - i,
    {
        let control: ControlReading = controls[i];
        let pid: u32 = control.pid;
        let ghost before = groups@;
        let ghost seen = controls@.take(i as int);
        let ghost now = controls@.take(i + 1);
        if pid != 0 && !control.is_system_sounds && control.state != SESSION_EXPIRED {
            let mut at: usize = groups.len();
            let mut g: usize = 0;
            while g < groups.len() && at == groups.len()
                invariant
                    g <= groups@.len(),
                    at <= groups@.len(),
                    groups@ == before,
                    at < groups@.len() ==> before[at as int].pid == pid,
                    at == groups@.len() ==> forall|k: int|
                        0 <= k < g ==> (#[trigger] before[k]).pid != pid,
                decreases groups@.len() - g,
            {
                if groups[g].pid == pid {
                    at = g;
                }
                g += 1;
            }
            if at < groups.len() {
                let mut group = groups.remove(at);
                let ghost controls_before = group.controls@;
                group.controls.push(i);
                let ghost grown = group;
                groups.insert(at, group);
                proof {
                    let after = groups@;
                    assert(after =~= before.update(at as int, grown));
                    assert(pids_in(after) =~= pids_in(before));
                    assert forall|g: int| 0 <= g < after.len() implies (
                    #[trigger] after[g]).controls@.len() > 0 && places_of(
                        now,
                        after[g].pid,
                        after[g].controls@,
                    ) by {
                        assert(places_of(seen, before[g].pid, before[g].controls@));
                        if g == at {
                            lemma_places_grow(controls@, pid, controls_before, i);
                        } else {
                            assert(pids_in(before)[g] != pids_in(before)[at as int]);
                            lemma_places_stay(
                                controls@,
                                before[g].pid,
                                before[g].controls@,
                                i as int,
                            );
                        }
                    }
                    assert(pids_in(after)[at as int] == pid);
                    assert forall|j: int| 0 <= j < now.len() && is_live(
                        #[trigger] now[j],
                    ) implies pids_in(after).contains(now[j].pid) by {
                        if j < i {
                            assert(seen[j] == now[j]);
                        }
                    }
                }
            } else {
                let group = ProcessControls { pid, controls: vec![i] };
                let ghost added = group;
                groups.push(group);
                proof {
                    let after = groups@;
                    assert(pids_in(after) =~= pids_in(before).push(pid));
                    lemma_push_members(pids_in(before), pid);
                    assert forall|k: int| 0 <= k < seen.len() implies !is_live_of(
                        #[trigger] seen[k],
                        pid,
                    ) by {
                        if is_live_of(seen[k], pid) {
                            assert(pids_in(before).contains(pid));
                            let m = choose|m: int|
                                0 <= m < pids_in(before).len() && pids_in(before)[m] == pid;
                            assert(before[m].pid == pid);
                        }
                    }
                    assert(places_of(seen, pid, Seq::<usize>::empty()));
                    lemma_places_grow(controls@, pid, Seq::<usize>::empty(), i);
                    assert(added.controls@ =~= Seq::<usize>::empty().push(i));
                    assert forall|g: int| 0 <= g < after.len() implies (
                    #[trigger] after[g]).controls@.len() > 0 && places_of(
                        now,
                        after[g].pid,
                        after[g].controls@,
                    ) by {
                        if g < before.len() {
                            assert(before[g].pid != pid);
                            lemma_places_stay(
                                controls@,
                                before[g].pid,
                                before[g].controls@,
                                i as int,
                            );
                        }
                    }
                    assert forall|a: int, b: int|
                        0 <= a < pids_in(after).len() && 0 <= b < pids_in(after).len() && a
                            != b implies pids_in(after)[a] != pids_in(after)[b] by {
                        if a < before.len() && b < before.len() {
                            assert(pids_in(before)[a] != pids_in(before)[b]);
                        } else if a < before.len() {
                            assert(before[a].pid != pid);
                        } else {
                            assert(before[b].pid != pid);
                        }
                    }
                    assert forall|j: int| 0 <= j < now.len() && is_live(
                        #[trigger] now[j],
                    ) implies pids_in(after).contains(now[j].pid) by {
                        if j < i {
                            assert(seen[j] == now[j]);
                        }
                        assert(pids_in(after).contains(now[j].pid) == (pids_in(before).contains(
                            now[j].pid,
                        ) || now[j].pid == pid));
                    }
                }
            }
        } else {
            proof {
                assert forall|g: int| 0 <= g < groups@.len() implies (
                #[trigger] groups@[g]).controls@.len() > 0 && places_of(
                    now,
                    groups@[g].pid,
                    groups@[g].controls@,
                ) by {
                    lemma_places_stay(controls@, groups@[g].pid, groups@[g].controls@, i as int);
                }
                assert forall|j: int| 0 <= j < now.len() && is_live(
                    #[trigger] now[j],
                ) implies pids_in(groups@).contains(now[j].pid) by {
                    assert(seen[j] == now[j]);
                }
            }
        }
        i += 1;
    }
    assert(controls@.take(i as int) == controls@);
    groups
}

/// The first place of `name`.
pub open spec fn first_place(names: Seq<Seq<char>>, name: Seq<char>, i: int) -> bool {
    0 <= i < names.len() && names[i] == name && forall|k: int|
        0 <= k < i ==> #[trigger] names[k] != name
}

/// The last of the highest ranks.
pub open spec fn last_highest(ranks: Seq<u8>, i: int) -> bool {
    &&& 0 <= i < ranks.len()
    &&& forall|k: int| 0 <= k <= i ==> #[trigger] ranks[k] <= ranks[i]
    &&& forall|k: int| i < k < ranks.len() ==> #[trigger] ranks[k] < ranks[i]
}

/// One of the audio session controls of a process.
#[derive(Debug, PartialEq)]
pub struct SessionCandidate {
    /// The device that it belongs to.
    pub device: String,
    /// The rank of its state.
    pub rank: u8,
}

pub open spec fn candidate_devices(candidates: Seq<SessionCandidate>) -> Seq<Seq<char>> {
    candidates.map_values(|c: SessionCandidate| c.device@)
}

pub open spec fn candidate_ranks(candidates: Seq<SessionCandidate>) -> Seq<u8> {
    candidates.map_values(|c: SessionCandidate| c.rank)
}

/// Whether `i` is the control to use: the first on the device that the process is
/// routed to, or else the last one of the highest state. The device does not matter
/// where there is only one control.
pub open spec fn is_chosen(
    candidates: Seq<SessionCandidate>,
    preferred: Option<Seq<char>>,
    i: int,
) -> bool {
    let devices = candidate_devices(candidates);
    match preferred {
        Some(device) => if candidates.len() > 1 && devices.contains(device) {
            first_place(devices, device, i)
        } else {
            last_highest(candidate_ranks(candidates), i)
        },
        None => last_highest(candidate_ranks(candidates), i),
    }
}

/// Which of several controls of one process to use, given the device that the process
/// is routed to.
pub fn resolve_session_control(
    candidates: &Vec<SessionCandidate>,
    preferred: &Option<String>,
) -> (choice: Option<usize>)
    ensures
        match choice {
            Some(i) => is_chosen(candidates@, opt_text(*preferred), i as int),
            None => candidates@.len() == 0,
        },
{
    let ghost devices = candidate_devices(candidates@);
    let ghost ranks = candidate_ranks(candidates@);
    if candidates.len() > 1 {
        if let Some(device) = preferred {
            let mut i: usize = 0;
            while i < candidates.len()
                invariant
                    i <= candidates@.len(),
                    candidates@.len() > 1,
                    devices == candidate_devices(candidates@),
                    *preferred == Some(*device),
                    forall|k: int| 0 <= k < i ==> #[trigger] devices[k] != device@,
                decreases candidates@.len() - i,
            {
                if same_text(&candidates[i].device, device) {
                    assert(devices[i as int] == device@);
                    return Some(i);
                }
                i += 1;
            }
            assert(!devices.contains(device@));
        }
    }
    if candidates.len() == 0 {
        return None;
    }
    let mut best: usize = 0;
    let mut i: usize = 1;
    while i < candidates.len()
        invariant
            best < i <= candidates@.len(),
            ranks == candidate_ranks(candidates@),
            last_highest(ranks.take(i as int), best as int),
        decreases candidates@.len() - i,
    {
        let ghost before = ranks.take(i as int);
        let ghost after = ranks.take(i + 1);
        proof {
            assert forall|k: int| 0 <= k < i implies #[trigger] after[k] == before[k] by {}
            assert(before[best as int] == ranks[best as int]);
            assert forall|k: int| 0 <= k < i implies #[trigger] before[k] <= before[best as int] by {
            }
        }
        if candidates[i].rank >= candidates[best].rank {
            best = i;
        }
        i += 1;
    }
    assert(ranks.take(i as int) == ranks);
    Some(best)
}

/// Whether a process's session is shown: not that of this program itself, nor one
/// of no process, nor the system sounds, nor an expired one.
pub fn is_shown(pid: u32, own_pid: u32, is_system_sounds: bool, state: i32) -> (shown: bool)
    ensures
        shown <==> pid != 0 && pid != own_pid && !is_system_sounds && state != SESSION_EXPIRED,
{
    pid != 0 && pid != own_pid && !is_system_sounds && state != SESSION_EXPIRED
}

/// What was found out about a process's program file.
#[derive(Debug, PartialEq)]
pub struct ProgramFile {
    /// Its name without directory and extension, if it has one.
    pub stem: Option<String>,
    pub icon_png: Option<Vec<u8>>,
}

/// The name for a process whose program is not known.
pub open spec fn fallback_name(pid: u32) -> Seq<char> {
    "PID "@ + decimal(pid as nat)
}

/// The display name and icon of a process: those of its program file, as far as they
/// are known.
pub fn resolve_process_info(pid: u32, program: Option<ProgramFile>) -> (info: (
    String,
    Option<Vec<u8>>,
))
    ensures
        info.0@ == (match program {
            Some(ProgramFile { stem: Some(stem), icon_png: _ }) => stem@,
            _ => fallback_name(pid),
        }),
        opt_bytes(info.1) == (match program {
            Some(file) => opt_bytes(file.icon_png),
            None => None,
        }),
{
    match program {
        None => (with_number("PID ", pid as u64), None),
        Some(file) => {
            let name = match file.stem {
                Some(stem) => stem,
                None => with_number("PID ", pid as u64),
            };
            (name, file.icon_png)
        },
    }
}

/// How a balance follows from the volumes of the two channels.
#[derive(Clone, Copy, Debug, PartialEq, Eq, Structural)]
pub enum BalanceReading {
    /// Neither side is favoured, or nothing is heard.
    Centered,
    /// One minus the left over the right volume.
    TowardRight,
    /// The right over the left volume, minus one.
    TowardLeft,
}

/// `a <= b` as IEEE 754 has it.
pub open spec fn at_most(a: Level, b: Level) -> bool {
    a.less(b) || a.same(b)
}

/// How a balance follows from the volumes of the two channels.
pub open spec fn favoured_side(left: Level, right: Level) -> BalanceReading {
    if at_most(left, right) {
        if at_most(right, Level { bits: ZERO_BITS }) {
            BalanceReading::Centered
        } else {
            BalanceReading::TowardRight
        }
    } else if at_most(left, Level { bits: ZERO_BITS }) {
        BalanceReading::Centered
    } else {
        BalanceReading::TowardLeft
    }
}

/// How a balance follows from the volumes of the two channels.
pub fn balance_reading(left: Level, right: Level) -> (reading: BalanceReading)
    ensures
        reading == favoured_side(left, right),
{
    let zero = Level { bits: ZERO_BITS };
    if left.is_less(right) || left.is_same(right) {
        if right.is_less(zero) || right.is_same(zero) {
            BalanceReading::Centered
        } else {
            BalanceReading::TowardRight
        }
    } else if left.is_less(zero) || left.is_same(zero) {
        BalanceReading::Centered
    } else {
        BalanceReading::TowardLeft
    }
}

/// Whether a session is to get its own volume back when the program ends.
pub open spec fn needs_restore(state: WindowsView, id: Seq<char>) -> bool {
    &&& state.applied_ducked.dom().contains(id)
    &&& state.applied_ducked[id]
    &&& state.target_volume.dom().contains(id)
}

pub open spec fn restore_ids(restores: Seq<(String, Level)>) -> Seq<Seq<char>> {
    restores.map_values(|r: (String, Level)| r.0@)
}

/// Whether the output device that a session is shown to be routed to is gone.
pub open spec fn is_stale(state: WindowsView, id: Seq<char>, live: Seq<Seq<char>>) -> bool {
    state.device_confirmed.dom().contains(id) && (state.device_confirmed[id] matches Some(device)
        && !live.contains(device))
}

/// Whether a session whose shown output device is gone stands for a process.
pub open spec fn is_stale_with(
    state: WindowsView,
    id: Seq<char>,
    live: Seq<Seq<char>>,
    pid: u32,
) -> bool {
    is_stale(state, id, live) && (member_pids(state, id) matches Some(pids) && pids.contains(pid))
}

/// The processes of those of the sessions whose shown output device is gone.
pub open spec fn stale_pids(
    state: WindowsView,
    ids: Seq<Seq<char>>,
    live: Seq<Seq<char>>,
) -> Seq<u32>
    decreases ids.len(),
{
    if ids.len() == 0 {
        Seq::empty()
    } else {
        let before = stale_pids(state, ids.drop_last(), live);
        if is_stale(state, ids.last(), live) && member_pids(state, ids.last()) is Some {
            before + member_pids(state, ids.last()).unwrap()
        } else {
            before
        }
    }
}

proof fn lemma_stale_pids(
    state: WindowsView,
    ids: Seq<Seq<char>>,
    live: Seq<Seq<char>>,
    pid: u32,
)
    ensures
        stale_pids(state, ids, live).contains(pid) <==> exists|id: Seq<char>|
            ids.contains(id) && #[trigger] is_stale_with(state, id, live, pid),
    decreases ids.len(),
{
    if ids.len() > 0 {
        let init = ids.drop_last();
        let last = ids.last();
        let before = stale_pids(state, init, live);
        lemma_stale_pids(state, init, live, pid);
        assert(ids =~= init.push(last));
        lemma_push_members(init, last);
        let all = stale_pids(state, ids, live);
        if is_stale(state, last, live) && member_pids(state, last) is Some {
            let own = member_pids(state, last).unwrap();
            assert(all == before + own);
            assert(all.contains(pid) <==> before.contains(pid) || own.contains(pid)) by {
                if before.contains(pid) {
                    let k = choose|k: int| 0 <= k < before.len() && before[k] == pid;
                    assert(all[k] == pid);
                }
                if own.contains(pid) {
                    let k = choose|k: int| 0 <= k < own.len() && own[k] == pid;
                    assert(all[before.len() + k] == pid);
                }
            }
        }
        if all.contains(pid) {
            if before.contains(pid) {
                let id = choose|id: Seq<char>|
                    init.contains(id) && #[trigger] is_stale_with(state, id, live, pid);
                assert(ids.contains(id));
            } else {
                assert(is_stale_with(state, last, live, pid));
                assert(ids.contains(last));
            }
        }
        if exists|id: Seq<char>|
            ids.contains(id) && #[trigger] is_stale_with(state, id, live, pid) {
            let id = choose|id: Seq<char>|
                ids.contains(id) && #[trigger] is_stale_with(state, id, live, pid);
            if id != last {
                assert(init.contains(id));
            }
        }
    }
}

pub open spec fn device_ids(devices: Seq<OutputDevice>) -> Seq<Seq<char>> {
    devices.map_values(|d: OutputDevice| d.id@)
}

impl WindowsMixerBackend {
    /// Stops listening, and says which sessions to give their own volume back: those
    /// whose last written volume was the ducked one.
    pub fn shutdown(&mut self) -> (restores: Vec<(String, Level)>)
        ensures
            final(self)@ == (WindowsView { captures: Map::empty(), ..old(self)@ }),
            restore_ids(restores@).no_duplicates(),
            forall|id: Seq<char>|
                restore_ids(restores@).contains(id) <==> needs_restore(old(self)@, id),
            forall|i: int|
                0 <= i < restores@.len() ==> (#[trigger] restores@[i]).1 == old(
                    self,
                )@.target_volume[restores@[i].0@],
    {
        self.captures = NameMap::new();
        let mut restores: Vec<(String, Level)> = Vec::new();
        let n: usize = self.applied_ducked.len();
        let mut i: usize = 0;
        let ghost keys = self.applied_ducked.keys();
        while i < n
            invariant
                i <= n == keys.len(),
                keys == self.applied_ducked.keys(),
                keys.no_duplicates(),
                forall|k: Seq<char>|
                    keys.contains(k) <==> self.applied_ducked@.dom().contains(k),
                self@ == (WindowsView { captures: Map::empty(), ..old(self)@ }),
                restore_ids(restores@).no_duplicates(),
                forall|id: Seq<char>|
                    restore_ids(restores@).contains(id) <==> keys.take(i as int).contains(id)
                        && needs_restore(self@, id),
                forall|k: int|
                    0 <= k < restores@.len() ==> (#[trigger] restores@[k]).1 == old(
                        self,
                    )@.target_volume[restores@[k].0@],
            decreases n - i,
        {
            let ghost before = restores@;
            let id = self.applied_ducked.key_at(i);
            let ducked: bool = *self.applied_ducked.value_at(i);
            proof {
                assert(keys.take(i + 1) =~= keys.take(i as int).push(id@));
                lemma_push_members(keys.take(i as int), id@);
                if keys.take(i as int).contains(id@) {
                    let k = choose|k: int|
                        0 <= k < keys.take(i as int).len() && keys.take(i as int)[k] == id@;
                    assert(keys[k] == keys[i as int]);
                }
            }
            if ducked {
                if let Some(volume) = self.target_volume.get(id) {
                    restores.push((id.clone(), *volume));
                    proof {
                        assert(restore_ids(restores@) =~= restore_ids(before).push(id@));
                        lemma_push_members(restore_ids(before), id@);
                        assert(!restore_ids(before).contains(id@));
                        let all = restore_ids(restores@);
                        assert forall|a: int, b: int|
                            0 <= a < all.len() && 0 <= b < all.len() && a != b implies all[a]
                            != all[b] by {
                            if a < before.len() && b < before.len() {
                                assert(restore_ids(before)[a] != restore_ids(before)[b]);
                            } else if a < before.len() {
                                assert(restore_ids(before).contains(restore_ids(before)[a]));
                            } else {
                                assert(restore_ids(before).contains(restore_ids(before)[b]));
                            }
                        }
                    }
                }
            }
            proof {
                assert forall|x: Seq<char>|
                    restore_ids(restores@).contains(x) <==> keys.take(i + 1).contains(x)
                        && needs_restore(self@, x) by {
                    assert(keys.take(i as int).push(id@).contains(x) == (keys.take(
                        i as int,
                    ).contains(x) || x == id@));
                    if restores@.len() > before.len() {
                        assert(restore_ids(before).push(id@).contains(x) == (restore_ids(
                            before,
                        ).contains(x) || x == id@));
                    }
                }
            }
            i += 1;
        }
        assert(keys.take(i as int) == keys);
        restores
    }

    /// The processes to route back to the system default, because the device that
    /// they are shown to be routed to is gone.
    pub fn stale_output_pids(&self, devices: &Vec<OutputDevice>) -> (pids: Vec<u32>)
        ensures
            pids@ == stale_pids(
                self@,
                self.output_device_confirmed.keys(),
                device_ids(devices@),
            ),
            forall|pid: u32| #[trigger]
                pids@.contains(pid) <==> exists|id: Seq<char>| #[trigger]
                    is_stale_with(self@, id, device_ids(devices@), pid),
    {
        let live = ids_of_devices(devices);
        let ghost keys = self.output_device_confirmed.keys();
        let mut pids: Vec<u32> = Vec::new();
        let n: usize = self.output_device_confirmed.len();
        let mut i: usize = 0;
        assert(keys.take(0) =~= Seq::<Seq<char>>::empty());
        while i < n
            invariant
                i <= n == keys.len(),
                keys == self.output_device_confirmed.keys(),
                texts(live@) == device_ids(devices@),
                forall|k: Seq<char>|
                    keys.contains(k) <==> self.output_device_confirmed@.dom().contains(k),
                pids@ == stale_pids(self@, keys.take(i as int), device_ids(devices@)),
            decreases n - i,
        {
            let id = self.output_device_confirmed.key_at(i);
            proof {
                assert(keys.take(i + 1).drop_last() == keys.take(i as int));
                assert(keys.take(i + 1).last() == id@);
                assert(self@.device_confirmed[id@] == opt_text(
                    self.output_device_confirmed@[id@],
                ));
            }
            if let Some(device) = self.output_device_confirmed.value_at(i) {
                if !listed(&live, device) {
                    if let Ok(members) = self.resolve_member_pids(id) {
                        let mut members = members;
                        pids.append(&mut members);
                    }
                }
            }
            i += 1;
        }
        assert(keys.take(i as int) == keys);
        proof {
            assert forall|pid: u32| #[trigger] pids@.contains(pid) <==> exists|id: Seq<char>|
                #[trigger] is_stale_with(self@, id, device_ids(devices@), pid) by {
                lemma_stale_pids(self@, keys, device_ids(devices@), pid);
                if exists|id: Seq<char>| #[trigger]
                    is_stale_with(self@, id, device_ids(devices@), pid) {
                    let id = choose|id: Seq<char>| #[trigger]
                        is_stale_with(self@, id, device_ids(devices@), pid);
                    assert(keys.contains(id));
                }
            }
        }
        pids
    }

    /// The processes to route to another output device. Without a way to route at
    /// all, the request fails.
    pub fn begin_routing(&self, session_id: &str, can_route: bool) -> (pids: Result<
        Vec<u32>,
        MixerError,
    >)
        ensures
            match pids {
                Ok(pids) => member_pids(self@, session_id@) == Some(pids@) && can_route,
                Err(e) => if member_pids(self@, session_id@) is None {
                    e@ == MixerErrorView::SessionNotFound(session_id@)
                } else {
                    !can_route && e@ == MixerErrorView::Platform(
                        "failed to activate IAudioPolicyConfigFactory"@,
                    )
                },
            },
    {
        let pids = match self.resolve_member_pids(session_id) {
            Ok(pids) => pids,
            Err(e) => return Err(e),
        };
        if !can_route {
            return Err(platform_error("failed to activate IAudioPolicyConfigFactory"));
        }
        Ok(pids)
    }

    /// A copy of the auto-duck settings.
    pub fn get_ducking_settings(&self) -> (settings: DuckingSettings)
        ensures
            settings@ == self@.settings,
    {
        self.ducking_settings.clone()
    }

    /// Turns auto-duck on or off. The result says whether to look for communication
    /// applications to start out with.
    pub fn set_ducking_enabled(&mut self, enabled: bool) -> (should_seed: bool)
        ensures
            final(self)@ == (WindowsView {
                settings: SettingsView { enabled: enabled, ..old(self)@.settings },
                ..old(self)@
            }),
            should_seed == asks_for_triggers(old(self)@.settings, enabled),
    {
        set_enabled(&mut self.ducking_settings, enabled)
    }

    /// Makes the communication applications among the shown ones triggers.
    pub fn seed_triggers(&mut self, shown_names: &Vec<String>)
        ensures
            final(self)@ == (WindowsView {
                settings: SettingsView {
                    priority_triggers: old(self)@.settings.priority_triggers + running_well_known(
                        well_known_names(),
                        texts(shown_names@),
                    ),
                    ..old(self)@.settings
                },
                ..old(self)@
            }),
    {
        seed_communication_apps(&mut self.ducking_settings, shown_names);
    }

    /// Lets an application trigger ducking, or no longer.
    pub fn set_duck_trigger_priority(&mut self, display_name: &str, is_priority: bool)
        ensures
            final(self)@ == (WindowsView {
                settings: toggled(old(self)@.settings, display_name@, is_priority),
                ..old(self)@
            }),
    {
        toggle_priority_trigger(&mut self.ducking_settings, display_name, is_priority);
    }
}

/// Ends a request to route: it succeeds if it reached any process.
pub fn finish_routing(reached_any: bool) -> (result: Result<(), MixerError>)
    ensures
        match result {
            Ok(()) => reached_any,
            Err(e) => !reached_any && e@ == MixerErrorView::Platform(
                "failed to set output device for any member"@,
            ),
        },
{
    if reached_any {
        Ok(())
    } else {
        Err(platform_error("failed to set output device for any member"))
    }
}

fn ids_of_devices(devices: &Vec<OutputDevice>) -> (ids: Vec<String>)
    ensures
        texts(ids@) == device_ids(devices@),
{
    let mut ids: Vec<String> = Vec::new();
    let mut i: usize = 0;
    while i < devices.len()
        invariant
            i <= devices@.len(),
            ids@.len() == i,
            forall|k: int| 0 <= k < i ==> (#[trigger] ids@[k])@ == devices@[k].id@,
        decreases devices@.len() - i,
    {
        ids.push(devices[i].id.clone());
        i += 1;
    }
    assert(texts(ids@) =~= device_ids(devices@));
    ids
}

/// An active session ranks above an inactive one, and that above all others, which rank
/// alike.
pub proof fn law_active_ranks_highest(state: i32)
    ensures
        state != 1 ==> state_rank(state) < state_rank(1),
        state != 1 && state != 0 ==> state_rank(state) < state_rank(0),
        state != 1 && state != 0 ==> state_rank(state) == state_rank(2),
{
}

/// Whether the control at `i` stands in a group of its process.
pub open spec fn is_grouped(controls: Seq<ControlReading>, groups: Seq<ProcessControls>, i: int) -> bool {
    exists|g: int, k: int|
        0 <= g < groups.len() && 0 <= k < groups[g].controls@.len() && groups[g].pid
            == controls[i].pid && #[trigger] groups[g].controls@[k] == i
}

/// A control stands in the group of its process exactly if a process owns it, it is not that
/// of the system sounds, and it has not expired.
pub proof fn law_which_controls_are_grouped(
    controls: Seq<ControlReading>,
    groups: Seq<ProcessControls>,
    i: int,
)
    requires
        controls_by_pid(controls, groups),
        0 <= i < controls.len(),
    ensures
        is_grouped(controls, groups, i) <==> controls[i].pid != 0 && !controls[i].is_system_sounds
            && controls[i].state != 2,
{
    if is_grouped(controls, groups, i) {
        let (g, k) = choose|g: int, k: int|
            0 <= g < groups.len() && 0 <= k < groups[g].controls@.len() && groups[g].pid
                == controls[i].pid && #[trigger] groups[g].controls@[k] == i;
        law_controls_handed_out_are_live(controls, groups, g, k);
    }
    if is_live(controls[i]) {
        let g = choose|g: int|
            0 <= g < pids_in(groups).len() && pids_in(groups)[g] == controls[i].pid;
        assert(places_of(controls, groups[g].pid, groups[g].controls@));
        assert(is_live_of(controls[i], groups[g].pid));
        let k = choose|k: int|
            0 <= k < groups[g].controls@.len() && #[trigger] groups[g].controls@[k] == i;
        assert(groups[g].controls@[k] == i);
    }
}

/// Every group is of another process, holds something, and lists its controls in order, each
/// of them once.
pub proof fn law_groups_are_apart(
    controls: Seq<ControlReading>,
    groups: Seq<ProcessControls>,
    g: int,
    h: int,
)
    requires
        controls_by_pid(controls, groups),
        0 <= g < h < groups.len(),
    ensures
        groups[g].pid != groups[h].pid,
        groups[g].controls@.len() > 0,
        groups[h].controls@.len() > 0,
        forall|k: int, m: int|
            0 <= k < m < groups[g].controls@.len() ==> (#[trigger] groups[g].controls@[k]) < (
            #[trigger] groups[g].controls@[m]),
{
    assert(pids_in(groups)[g] != pids_in(groups)[h]);
    assert(places_of(controls, groups[g].pid, groups[g].controls@));
}

/// Whether a control belongs to a device.
pub open spec fn is_on(candidates: Seq<SessionCandidate>, device: Seq<char>, i: int) -> bool {
    0 <= i < candidates.len() && candidates[i].device@ == device
}

/// The control that is used: the first one on the preferred device, if there are several
/// controls and one is on that device; otherwise none ranks higher, and none behind it
/// ranks as high.
pub proof fn law_which_control_is_used(
    candidates: Seq<SessionCandidate>,
    preferred: Option<Seq<char>>,
    i: int,
)
    requires
        is_chosen(candidates, preferred, i),
    ensures
        0 <= i < candidates.len(),
        ({
            let by_device = candidates.len() > 1 && (preferred matches Some(device) && exists|k: int|
                is_on(candidates, device, k));
            &&& by_device ==> is_on(candidates, preferred.unwrap(), i) && forall|k: int|
                0 <= k < i ==> !is_on(candidates, preferred.unwrap(), k)
            &&& !by_device ==> forall|k: int|
                0 <= k < candidates.len() ==> (#[trigger] candidates[k]).rank <= candidates[i].rank
                    && (k > i ==> candidates[k].rank < candidates[i].rank)
        }),
{
    let devices = candidate_devices(candidates);
    let ranks = candidate_ranks(candidates);
    if let Some(device) = preferred {
        if devices.contains(device) {
            let k = choose|k: int| 0 <= k < devices.len() && devices[k] == device;
            assert(is_on(candidates, device, k));
        }
        if exists|k: int| is_on(candidates, device, k) {
            let k = choose|k: int| is_on(candidates, device, k);
            assert(devices[k] == device);
        }
        if first_place(devices, device, i) {
            assert forall|k: int| 0 <= k < i implies !is_on(candidates, device, k) by {
                assert(devices[k] != device);
            }
        }
    }
    if last_highest(ranks, i) {
        assert forall|k: int| 0 <= k < candidates.len() implies (#[trigger] candidates[k]).rank
            <= candidates[i].rank && (k > i ==> candidates[k].rank < candidates[i].rank) by {
            assert(ranks[k] == candidates[k].rank);
        }
    }
}

/// When the program ends, a session gets its own volume back exactly if it was last set to
/// the ducked one and its own is known.
pub proof fn law_who_gets_the_volume_back(state: WindowsView, id: Seq<char>)
    ensures
        needs_restore(state, id) <==> state.applied_ducked.contains_pair(id, true)
            && state.target_volume.dom().contains(id),
{
}

/// A process is routed back exactly if it belongs to a session that is shown on a device
/// which is none of those that there are.
pub proof fn law_who_is_routed_back(
    state: WindowsView,
    ids: Seq<Seq<char>>,
    devices: Seq<OutputDevice>,
    pid: u32,
)
    ensures
        stale_pids(state, ids, device_ids(devices)).contains(pid) <==> exists|
            id: Seq<char>,
            device: Seq<char>,
        |
            ids.contains(id) && #[trigger] state.device_confirmed.contains_pair(id, Some(device))
                && (forall|k: int|
                0 <= k < devices.len() ==> (#[trigger] devices[k]).id@ != device) && (member_pids(
                state,
                id,
            ) matches Some(pids) && pids.contains(pid)),
{
    let live = device_ids(devices);
    lemma_stale_pids(state, ids, live, pid);
    assert forall|device: Seq<char>| live.contains(device) <==> exists|k: int|
        0 <= k < devices.len() && (#[trigger] devices[k]).id@ == device by {
        if live.contains(device) {
            let k = choose|k: int| 0 <= k < live.len() && live[k] == device;
            assert(devices[k].id@ == device);
        }
        if exists|k: int| 0 <= k < devices.len() && (#[trigger] devices[k]).id@ == device {
            let k = choose|k: int| 0 <= k < devices.len() && (#[trigger] devices[k]).id@ == device;
            assert(live[k] == device);
        }
    }
    if stale_pids(state, ids, live).contains(pid) {
        let id = choose|id: Seq<char>|
            ids.contains(id) && #[trigger] is_stale_with(state, id, live, pid);
        let device = state.device_confirmed[id].unwrap();
        assert(state.device_confirmed.contains_pair(id, Some(device)));
    }
    if exists|id: Seq<char>, device: Seq<char>|
        ids.contains(id) && #[trigger] state.device_confirmed.contains_pair(id, Some(device)) && (
        forall|k: int| 0 <= k < devices.len() ==> (#[trigger] devices[k]).id@ != device) && (
        member_pids(state, id) matches Some(pids) && pids.contains(pid)) {
        let (id, device) = choose|id: Seq<char>, device: Seq<char>|
            ids.contains(id) && #[trigger] state.device_confirmed.contains_pair(id, Some(device))
                && (forall|k: int|
                0 <= k < devices.len() ==> (#[trigger] devices[k]).id@ != device) && (member_pids(
                state,
                id,
            ) matches Some(pids) && pids.contains(pid));
        assert(is_stale_with(state, id, live, pid));
    }
}

/// Comparing volumes is comparing their places among all numbers.
pub proof fn law_volumes_compare_by_rank(a: Level, b: Level)
    ensures
        at_most(a, b) <==> !a.is_nan() && !b.is_nan() && a.rank() <= b.rank(),
{
}

/// A process without a known name is called by its number.
pub proof fn law_the_name_of_an_unknown_program(pid: u32)
    ensures
        fallback_name(pid) == seq!['P', 'I', 'D', ' '] + decimal(pid as nat),
{
    reveal_strlit("PID ");
    assert("PID "@ =~= seq!['P', 'I', 'D', ' ']);
}

/// The louder of the two channels sets the side, and where neither is heard it is the middle.
/// Exchanging channels that differ exchanges the sides.
pub proof fn law_the_louder_channel_sets_the_side(left: Level, right: Level)
    requires
        !left.is_nan(),
        !right.is_nan(),
    ensures
        favoured_side(left, right) is Centered <==> left.rank() <= 0 && right.rank() <= 0,
        favoured_side(left, right) is TowardLeft <==> left.rank() > 0 && left.rank() > right.rank(),
        left.rank() != right.rank() ==> (favoured_side(left, right) is TowardRight
            <==> favoured_side(right, left) is TowardLeft),
{
}

} // verus!
