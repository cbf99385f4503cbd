//! Sessions on Windows: one per process that has audio sessions, processes of the
//! same name merged into one row.

use vstd::prelude::*;

use crate::duck_detect::{duck_volume, ducked_volume};
use crate::level::Level;
use crate::name_map::NameMap;
use crate::seqs::lemma_map_values_insert;
use crate::session::{
    clamp_volume, clamped_volume, copy_text, generation_of, next_generation, opt_text, same_name,
    session_not_found, DuckingSettings, MixerError, MixerErrorView, SettingsView,
};
use crate::text::{
    after_prefix, chars_of, decimal, is_digit, lemma_decimal_reads_back, parse_u32, parsed_u32,
    strip_prefix, with_number,
};

verus! {

/// The session id of a process.
pub open spec fn process_session_id(pid: u32) -> Seq<char> {
    "win-"@ + decimal(pid as nat)
}

/// The process that a session id names.
pub open spec fn process_of_session_id(id: Seq<char>) -> Option<u32> {
    match after_prefix(id, "win-"@) {
        Some(digits) => parsed_u32(digits),
        None => None,
    }
}

/// The session id of a merged row whose lowest process id is `pid`.
pub open spec fn group_session_id(pid: u32) -> Seq<char> {
    "win-group-"@ + decimal(pid as nat)
}

/// The session id of a process.
pub fn session_id_for(pid: u32) -> (id: String)
    ensures
        id@ == process_session_id(pid),
{
    with_number("win-", pid as u64)
}

/// The process that a session id names, if it is the id of one.
pub fn pid_from_session_id(id: &str) -> (pid: Option<u32>)
    ensures
        pid == process_of_session_id(id@),
{
    match strip_prefix(&chars_of(id), "win-") {
        Some(digits) => parse_u32(&digits),
        None => None,
    }
}

/// The session id of a process names that process.
pub proof fn law_session_id_names_its_process(pid: u32)
    ensures
        process_of_session_id(process_session_id(pid)) == Some(pid),
{
    let digits = decimal(pid as nat);
    let id = process_session_id(pid);
    lemma_decimal_reads_back(pid as nat);
    assert(is_digit(digits[0]));
    assert("win-"@.is_prefix_of(id));
    assert(id.skip("win-"@.len() as int) =~= digits);
}

/// Two processes never share a session id.
pub proof fn law_session_ids_differ(a: u32, b: u32)
    requires
        a != b,
    ensures
        process_session_id(a) != process_session_id(b),
{
    law_session_id_names_its_process(a);
    law_session_id_names_its_process(b);
}

/// The id of a merged row is never taken for the id of a process.
pub proof fn law_group_id_names_no_process(pid: u32)
    ensures
        process_of_session_id(group_session_id(pid)) is None,
{
    reveal_strlit("win-");
    reveal_strlit("win-group-");
    let id = group_session_id(pid);
    assert("win-"@.is_prefix_of(id));
    let rest = id.skip(4);
    assert(after_prefix(id, "win-"@) == Some(rest));
    assert(rest[0] == 'g');
    assert(!is_digit(rest[0]));
}

/// What is remembered between two looks at the sessions.
pub struct WindowsMixerBackend {
    pub ducking_settings: DuckingSettings,
    /// The processes whose sound is being listened to, by session id.
    pub captures: NameMap<u32>,
    /// What the user set each session's volume to, whatever ducking wrote since.
    pub target_volume: NameMap<Level>,
    /// Whether the volume that was last written for a session was the ducked one.
    pub applied_ducked: NameMap<bool>,
    /// How often each session was changed by the user.
    pub write_generations: NameMap<u64>,
    /// The latest reading of each session's output device.
    pub output_device_raw: NameMap<Option<String>>,
    /// The latest reading that came twice in a row, or first of all.
    pub output_device_confirmed: NameMap<Option<String>>,
    /// The processes behind each merged row.
    pub session_groups: NameMap<Vec<u32>>,
}

/// What a `WindowsMixerBackend` holds.
#[verifier::ext_equal]
pub struct WindowsView {
    pub settings: SettingsView,
    pub captures: Map<Seq<char>, u32>,
    pub target_volume: Map<Seq<char>, Level>,
    pub applied_ducked: Map<Seq<char>, bool>,
    pub write_generations: Map<Seq<char>, u64>,
    pub device_raw: Map<Seq<char>, Option<Seq<char>>>,
    pub device_confirmed: Map<Seq<char>, Option<Seq<char>>>,
    pub session_groups: Map<Seq<char>, Seq<u32>>,
}

pub open spec fn text_in() -> spec_fn(Option<String>) -> Option<Seq<char>> {
    |s: Option<String>| opt_text(s)
}

pub open spec fn numbers_in() -> spec_fn(Vec<u32>) -> Seq<u32> {
    |v: Vec<u32>| v@
}

impl View for WindowsMixerBackend {
    type V = WindowsView;

    open spec fn view(&self) -> WindowsView {
        WindowsView {
            settings: self.ducking_settings@,
            captures: self.captures@,
            target_volume: self.target_volume@,
            applied_ducked: self.applied_ducked@,
            write_generations: self.write_generations@,
            device_raw: self.output_device_raw@.map_values(text_in()),
            device_confirmed: self.output_device_confirmed@.map_values(text_in()),
            session_groups: self.session_groups@.map_values(numbers_in()),
        }
    }
}

/// The state at the start.
pub open spec fn initial_state(settings: SettingsView) -> WindowsView {
    WindowsView {
        settings,
        captures: Map::empty(),
        target_volume: Map::empty(),
        applied_ducked: Map::empty(),
        write_generations: Map::empty(),
        device_raw: Map::empty(),
        device_confirmed: Map::empty(),
        session_groups: Map::empty(),
    }
}

/// The state after an output device was read, and the device to show. A reading is
/// trusted when it is the first one or equals the one before.
pub open spec fn debounced(
    state: WindowsView,
    id: Seq<char>,
    raw: Option<Seq<char>>,
) -> (WindowsView, Option<Seq<char>>) {
    let trusted = !state.device_raw.dom().contains(id) || state.device_raw[id] == raw;
    let confirmed = if trusted {
        state.device_confirmed.insert(id, raw)
    } else {
        state.device_confirmed
    };
    (
        WindowsView {
            device_raw: state.device_raw.insert(id, raw),
            device_confirmed: confirmed,
            ..state
        },
        if confirmed.dom().contains(id) {
            confirmed[id]
        } else {
            None
        },
    )
}

/// The processes that a session id stands for: those of a merged row, or the one
/// process that it names.
pub open spec fn member_pids(state: WindowsView, id: Seq<char>) -> Option<Seq<u32>> {
    if state.session_groups.dom().contains(id) {
        Some(state.session_groups[id])
    } else {
        match process_of_session_id(id) {
            Some(pid) => Some(seq![pid]),
            None => None,
        }
    }
}

/// The target volumes after the same volume was set for several processes.
pub open spec fn targets_set(
    targets: Map<Seq<char>, Level>,
    pids: Seq<u32>,
    volume: Level,
) -> Map<Seq<char>, Level>
    decreases pids.len(),
{
    if pids.len() == 0 {
        targets
    } else {
        targets_set(targets, pids.drop_last(), volume).insert(
            process_session_id(pids.last()),
            volume,
        )
    }
}

/// Whether the last volume written for a session was the ducked one.
pub open spec fn was_ducked(state: WindowsView, id: Seq<char>) -> bool {
    state.applied_ducked.dom().contains(id) && state.applied_ducked[id]
}

/// A volume to write for one process.
#[derive(Clone, Copy, Debug, PartialEq, Eq, Structural)]
pub struct MemberVolume {
    pub pid: u32,
    pub volume: Level,
}

/// What to write for a process that the user set to a volume: a ducked one stays ducked.
pub open spec fn written_volume(state: WindowsView, pid: u32, volume: Level) -> Level {
    if was_ducked(state, process_session_id(pid)) {
        ducked_volume(volume)
    } else {
        volume
    }
}

impl WindowsMixerBackend {
    pub fn new(ducking_settings: DuckingSettings) -> (backend: Self)
        ensures
            backend@ == initial_state(ducking_settings@),
    {
        let backend = WindowsMixerBackend {
            ducking_settings,
            captures: NameMap::new(),
            target_volume: NameMap::new(),
            applied_ducked: NameMap::new(),
            write_generations: NameMap::new(),
            output_device_raw: NameMap::new(),
            output_device_confirmed: NameMap::new(),
            session_groups: NameMap::new(),
        };
        assert(backend@ =~= initial_state(ducking_settings@));
        backend
    }

    /// Records a reading of a session's output device, and gives the device to show:
    /// a reading that differs from the one before is not believed until it comes
    /// again.
    pub fn debounce_output_device(&mut self, session_id: &str, raw: &Option<String>) -> (shown:
        Option<String>)
        ensures
            final(self)@ == debounced(old(self)@, session_id@, opt_text(*raw)).0,
            opt_text(shown) == debounced(old(self)@, session_id@, opt_text(*raw)).1,
    {
        let confirm = match self.output_device_raw.get(session_id) {
            None => true,
            Some(previous) => same_name(previous, raw),
        };
        proof {
            lemma_map_values_insert(self.output_device_raw@, text_in(), session_id@, *raw);
            lemma_map_values_insert(self.output_device_confirmed@, text_in(), session_id@, *raw);
        }
        self.output_device_raw.insert(session_id, copy_text(raw));
        if confirm {
            self.output_device_confirmed.insert(session_id, copy_text(raw));
        }
        match self.output_device_confirmed.get(session_id) {
            Some(device) => copy_text(device),
            None => None,
        }
    }

    /// Counts a change of a session, and gives the new count.
    pub fn bump_generation(&mut self, session_id: &str) -> (generation: u64)
        ensures
            generation == next_generation(
                generation_of(old(self)@.write_generations, session_id@),
            ),
            final(self)@ == (WindowsView {
                write_generations: old(self)@.write_generations.insert(session_id@, generation),
                ..old(self)@
            }),
    {
        let before: u64 = match self.write_generations.get(session_id) {
            Some(n) => *n,
            None => 0,
        };
        let generation: u64 = before.wrapping_add(1);
        self.write_generations.insert(session_id, generation);
        generation
    }

    /// The processes that a session id stands for.
    pub fn resolve_member_pids(&self, session_id: &str) -> (pids: Result<Vec<u32>, MixerError>)
        ensures
            match pids {
                Ok(pids) => member_pids(self@, session_id@) == Some(pids@),
                Err(e) => member_pids(self@, session_id@) is None && e@
                    == MixerErrorView::SessionNotFound(session_id@),
            },
    {
        match self.session_groups.get(session_id) {
            Some(pids) => {
                let copy = pids.clone();
                assert(copy@ =~= pids@);
                Ok(copy)
            },
            None => match pid_from_session_id(session_id) {
                Some(pid) => Ok(vec![pid]),
                None => Err(session_not_found(session_id)),
            },
        }
    }

    /// Sets the volume of every process that a session id stands for. The result says
    /// what to write for each of them.
    pub fn set_volume(&mut self, session_id: &str, volume: Level) -> (writes: Result<
        Vec<MemberVolume>,
        MixerError,
    >)
        ensures
            match writes {
                Ok(writes) => {
                    let pids = member_pids(old(self)@, session_id@).unwrap();
                    &&& member_pids(old(self)@, session_id@) is Some
                    &&& final(self)@ == (WindowsView {
                        target_volume: targets_set(
                            old(self)@.target_volume,
                            pids,
                            clamped_volume(volume),
                        ),
                        ..old(self)@
                    })
                    &&& writes@ == Seq::new(
                        pids.len(),
                        |i: int|
                            MemberVolume {
                                pid: pids[i],
                                volume: written_volume(
                                    old(self)@,
                                    pids[i],
                                    clamped_volume(volume),
                                ),
                            },
                    )
                },
                Err(e) => {
                    &&& member_pids(old(self)@, session_id@) is None
                    &&& e@ == MixerErrorView::SessionNotFound(session_id@)
                    &&& final(self)@ == old(self)@
                },
            },
    {
        let volume = clamp_volume(volume);
        let pids = match self.resolve_member_pids(session_id) {
            Ok(pids) => pids,
            Err(e) => return Err(e),
        };
        let mut writes: Vec<MemberVolume> = Vec::new();
        let mut i: usize = 0;
        proof {
            assert(pids@.take(0) =~= Seq::<u32>::empty());
        }
        while i < pids.len()
            invariant
                i <= pids@.len(),
                self@ == (WindowsView {
                    target_volume: targets_set(
                        old(self)@.target_volume,
                        pids@.take(i as int),
                        volume,
                    ),
                    ..old(self)@
                }),
                writes@.len() == i,
                forall|k: int|
                    0 <= k < i ==> #[trigger] writes@[k] == (MemberVolume {
                        pid: pids@[k],
                        volume: written_volume(old(self)@, pids@[k], volume),
                    }),
            decreases pids@.len() - i,
        {
            let pid: u32 = pids[i];
            let member_id = session_id_for(pid);
            self.target_volume.insert(&member_id, volume);
            let is_ducked = match self.applied_ducked.get(&member_id) {
                Some(ducked) => *ducked,
                None => false,
            };
            let written: Level = if is_ducked {
                duck_volume(volume)
            } else {
                volume
            };
            writes.push(MemberVolume { pid, volume: written });
            assert(pids@.take(i + 1).drop_last() == pids@.take(i as int));
            i += 1;
        }
        assert(pids@.take(i as int) == pids@);
        Ok(writes)
    }

    /// Ends a change of a session: it counts if it reached any of the processes.
    pub fn finish_change(&mut self, session_id: &str, reached_any: bool) -> (result: Result<
        u64,
        MixerError,
    >)
        ensures
            match result {
                Ok(generation) => {
                    &&& reached_any
                    &&& generation == next_generation(
                        generation_of(old(self)@.write_generations, session_id@),
                    )
                    &&& final(self)@ == (WindowsView {
                        write_generations: old(self)@.write_generations.insert(
                            session_id@,
                            generation,
                        ),
                        ..old(self)@
                    })
                },
                Err(e) => {
                    &&& !reached_any
                    &&& e@ == MixerErrorView::SessionNotFound(session_id@)
                    &&& final(self)@ == old(self)@
                },
            },
    {
        if !reached_any {
            return Err(session_not_found(session_id));
        }
        Ok(self.bump_generation(session_id))
    }
}

/// The first reading of a session's output device is shown.
pub proof fn law_first_reading_is_shown(
    state: WindowsView,
    id: Seq<char>,
    raw: Option<Seq<char>>,
)
    requires
        !state.device_raw.dom().contains(id),
    ensures
        debounced(state, id, raw).1 == raw,
{
}

/// A reading that comes twice in a row is shown.
pub proof fn law_repeated_reading_is_shown(
    state: WindowsView,
    id: Seq<char>,
    raw: Option<Seq<char>>,
)
    ensures
        debounced(debounced(state, id, raw).0, id, raw).1 == raw,
{
}

/// While a device is shown that was also read last, a different reading that does not
/// come again is never shown.
pub proof fn law_single_different_reading_is_not_shown(
    state: WindowsView,
    id: Seq<char>,
    shown: Option<Seq<char>>,
    different: Option<Seq<char>>,
)
    requires
        state.device_raw.dom().contains(id),
        state.device_raw[id] == shown,
        state.device_confirmed.dom().contains(id),
        state.device_confirmed[id] == shown,
        different != shown,
    ensures
        debounced(state, id, different).1 == shown,
        debounced(debounced(state, id, different).0, id, shown).1 == shown,
{
}

/// What session ids look like: `win-` and the number of the process, and for a merged row
/// `win-group-` and the number of the lowest one.
pub proof fn law_what_session_ids_look_like(pid: u32)
    ensures
        process_session_id(pid) == seq!['w', 'i', 'n', '-'] + decimal(pid as nat),
        group_session_id(pid) == seq!['w', 'i', 'n', '-', 'g', 'r', 'o', 'u', 'p', '-'] + decimal(
            pid as nat,
        ),
{
    reveal_strlit("win-");
    reveal_strlit("win-group-");
    assert("win-"@ =~= seq!['w', 'i', 'n', '-']);
    assert("win-group-"@ =~= seq!['w', 'i', 'n', '-', 'g', 'r', 'o', 'u', 'p', '-']);
}

/// At the start nothing is remembered and nobody is listened to.
pub proof fn law_nothing_is_remembered_at_first(settings: SettingsView, id: Seq<char>)
    ensures
        ({
            let start = initial_state(settings);
            &&& start.settings == settings
            &&& !start.captures.dom().contains(id) && !start.target_volume.dom().contains(id)
            &&& !start.applied_ducked.dom().contains(id)
            &&& !start.write_generations.dom().contains(id)
            &&& !start.device_raw.dom().contains(id) && !start.device_confirmed.dom().contains(id)
            &&& !start.session_groups.dom().contains(id)
        }),
{
}

} // verus!
