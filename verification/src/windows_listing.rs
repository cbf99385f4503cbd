//! Looking at the sessions on Windows: which processes to listen to, who is ducked,
//! what to write, and the rows to show.

use vstd::prelude::*;

use crate::duck_detect::{duck_volume, ducked_volume};
use crate::grouping::{groupable, grouped_rows, groups_added, some_process_named};
use crate::level::Level;
use crate::name_map::{listed, name_set, texts, NameMap};
use crate::order::{by_name_then_id, sort_sessions, sorted};
use crate::seqs::lemma_map_values_restrict;
use crate::session::{
    generation_of, icon_is_new, icon_kept, keep_icon, opt_bytes, opt_text, session_views,
    AppSession, SessionView, SettingsView,
};
use crate::windows::{
    debounced, law_session_id_names_its_process, process_of_session_id, process_session_id,
    session_id_for, text_in, was_ducked, WindowsMixerBackend, WindowsView,
};

verus! {

/// What was read of one process's audio session.
#[derive(Debug, PartialEq)]
pub struct RawSession {
    pub pid: u32,
    /// The volume that is set now, ducked or not.
    pub live_volume: Level,
    pub muted: bool,
    pub balance: Level,
    pub is_active: bool,
    pub display_name: String,
    pub icon_png: Option<Vec<u8>>,
}

/// What a `RawSession` holds.
#[verifier::ext_equal]
pub struct RawView {
    pub pid: u32,
    pub live_volume: Level,
    pub muted: bool,
    pub balance: Level,
    pub is_active: bool,
    pub display_name: Seq<char>,
    pub icon_png: Option<Seq<u8>>,
}

impl View for RawSession {
    type V = RawView;

    open spec fn view(&self) -> RawView {
        RawView {
            pid: self.pid,
            live_volume: self.live_volume,
            muted: self.muted,
            balance: self.balance,
            is_active: self.is_active,
            display_name: self.display_name@,
            icon_png: opt_bytes(self.icon_png),
        }
    }
}

pub open spec fn raw_views(raw: Seq<RawSession>) -> Seq<RawView> {
    raw.map_values(|r: RawSession| r@)
}

/// A session with what else is needed to show it.
#[derive(Debug, PartialEq)]
pub struct SessionReading {
    pub raw: RawSession,
    /// The output device that the process is routed to, as just read.
    pub routed_device: Option<String>,
}

/// What a `SessionReading` holds.
#[verifier::ext_equal]
pub struct ReadingView {
    pub raw: RawView,
    pub routed_device: Option<Seq<char>>,
}

impl View for SessionReading {
    type V = ReadingView;

    open spec fn view(&self) -> ReadingView {
        ReadingView {
            raw: self.raw@,
            routed_device: opt_text(self.routed_device),
        }
    }
}

pub open spec fn reading_views(readings: Seq<SessionReading>) -> Seq<ReadingView> {
    readings.map_values(|r: SessionReading| r@)
}

/// The target volumes, with the volume of each session that has none yet.
pub open spec fn targets_seeded(
    targets: Map<Seq<char>, Level>,
    raw: Seq<RawView>,
) -> Map<Seq<char>, Level>
    decreases raw.len(),
{
    if raw.len() == 0 {
        targets
    } else {
        let before = targets_seeded(targets, raw.drop_last());
        let id = process_session_id(raw.last().pid);
        if before.dom().contains(id) {
            before
        } else {
            before.insert(id, raw.last().live_volume)
        }
    }
}

/// Whether a session is to be listened to: it is active and may trigger ducking.
pub open spec fn is_wanted(settings: SettingsView, raw: RawView) -> bool {
    raw.is_active && settings.priority_triggers.contains(raw.display_name)
}

/// The ids of the sessions to listen to.
pub open spec fn wanted_ids(settings: SettingsView, raw: Seq<RawView>) -> Seq<Seq<char>>
    decreases raw.len(),
{
    if raw.len() == 0 {
        Seq::empty()
    } else if is_wanted(settings, raw.last()) {
        wanted_ids(settings, raw.drop_last()).push(process_session_id(raw.last().pid))
    } else {
        wanted_ids(settings, raw.drop_last())
    }
}

/// The captures, with one for each wanted session that has none yet.
pub open spec fn captures_started(
    captures: Map<Seq<char>, u32>,
    wanted: Seq<Seq<char>>,
    raw: Seq<RawView>,
) -> Map<Seq<char>, u32>
    decreases raw.len(),
{
    if raw.len() == 0 {
        captures
    } else {
        let before = captures_started(captures, wanted, raw.drop_last());
        let id = process_session_id(raw.last().pid);
        if wanted.contains(id) && !before.dom().contains(id) {
            before.insert(id, raw.last().pid)
        } else {
            before
        }
    }
}

/// The captures that should run: those of the wanted sessions, and none at all while
/// ducking is off or nothing may trigger it.
pub open spec fn captures_reconciled(
    captures: Map<Seq<char>, u32>,
    settings: SettingsView,
    raw: Seq<RawView>,
) -> Map<Seq<char>, u32> {
    if settings.enabled && settings.priority_triggers.len() > 0 {
        let wanted = wanted_ids(settings, raw);
        captures_started(captures, wanted, raw).restrict(name_set(wanted))
    } else {
        Map::empty()
    }
}

/// The state once the sessions have been enumerated.
pub open spec fn begun(state: WindowsView, raw: Seq<RawView>) -> WindowsView {
    WindowsView {
        target_volume: targets_seeded(state.target_volume, raw),
        captures: captures_reconciled(state.captures, state.settings, raw),
        ..state
    }
}

/// Whether any session that is listened to is triggering.
pub open spec fn any_triggering(state: WindowsView, triggering: Seq<Seq<char>>) -> bool {
    exists|id: Seq<char>| #[trigger] state.captures.dom().contains(id) && triggering.contains(id)
}

/// The volume that the user set for a session.
pub open spec fn target_of(state: WindowsView, raw: RawView) -> Level {
    let id = process_session_id(raw.pid);
    if state.target_volume.dom().contains(id) {
        state.target_volume[id]
    } else {
        raw.live_volume
    }
}

/// Whether a session is triggering ducking.
pub open spec fn is_trigger(
    state: WindowsView,
    id: Seq<char>,
    triggering: Seq<Seq<char>>,
) -> bool {
    state.captures.dom().contains(id) && triggering.contains(id)
}

/// What one look at the sessions brings.
#[verifier::ext_equal]
pub struct ListingView {
    pub state: WindowsView,
    /// One row per process.
    pub rows: Seq<SessionView>,
    /// The volumes to write, by session id.
    pub writes: Seq<(Seq<char>, Level)>,
    /// Whether the settings changed.
    pub settings_changed: bool,
}

/// One more session after those of `before`: it is ducked if another one triggers, its
/// volume is written when that changes, and its device is shown once it is trusted.
pub open spec fn row_added(
    before: ListingView,
    reading: ReadingView,
    any: bool,
    triggering: Seq<Seq<char>>,
) -> ListingView {
    let state = before.state;
    let raw = reading.raw;
    let id = process_session_id(raw.pid);
    let trigger = is_trigger(state, id, triggering);
    let ducked = any && !trigger;
    let target = target_of(state, raw);
    let effective = if ducked {
        ducked_volume(target)
    } else {
        target
    };
    let changed = was_ducked(state, id) != ducked;
    let (read, device) = debounced(state, id, reading.routed_device);
    ListingView {
        state: WindowsView {
            applied_ducked: if changed {
                state.applied_ducked.insert(id, ducked)
            } else {
                state.applied_ducked
            },
            settings: icon_kept(
                state.settings,
                raw.display_name,
                raw.icon_png,
                raw.is_active,
            ),
            ..read
        },
        rows: before.rows.push(
            SessionView {
                id,
                display_name: raw.display_name,
                icon_png: raw.icon_png,
                volume: target,
                effective_volume: effective,
                muted: raw.muted,
                balance: raw.balance,
                is_active: raw.is_active,
                is_duck_trigger: trigger,
                is_ducked: ducked,
                write_generation: generation_of(state.write_generations, id),
                output_device_id: device,
            },
        ),
        writes: if changed {
            before.writes.push((id, effective))
        } else {
            before.writes
        },
        settings_changed: before.settings_changed || icon_is_new(
            state.settings,
            raw.display_name,
            raw.icon_png,
            raw.is_active,
        ),
    }
}

/// All sessions, one after the other.
pub open spec fn rows_listed(
    state: WindowsView,
    readings: Seq<ReadingView>,
    any: bool,
    triggering: Seq<Seq<char>>,
) -> ListingView
    decreases readings.len(),
{
    if readings.len() == 0 {
        ListingView { state, rows: Seq::empty(), writes: Seq::empty(), settings_changed: false }
    } else {
        row_added(
            rows_listed(state, readings.drop_last(), any, triggering),
            readings.last(),
            any,
            triggering,
        )
    }
}

/// The ids of rows.
pub open spec fn row_ids(rows: Seq<SessionView>) -> Seq<Seq<char>> {
    rows.map_values(|s: SessionView| s.id)
}

/// The state without what belongs to sessions that are gone.
pub open spec fn retained(state: WindowsView, live: Seq<Seq<char>>) -> WindowsView {
    WindowsView {
        target_volume: state.target_volume.restrict(name_set(live)),
        applied_ducked: state.applied_ducked.restrict(name_set(live)),
        device_raw: state.device_raw.restrict(name_set(live)),
        device_confirmed: state.device_confirmed.restrict(name_set(live)),
        ..state
    }
}

/// What a look at the sessions brings, before rows of one name are merged.
pub open spec fn listing(
    state: WindowsView,
    readings: Seq<ReadingView>,
    triggering: Seq<Seq<char>>,
) -> ListingView {
    rows_listed(state, readings, any_triggering(state, triggering), triggering)
}

/// The state after a look at the sessions.
pub open spec fn finished(
    state: WindowsView,
    readings: Seq<ReadingView>,
    triggering: Seq<Seq<char>>,
) -> WindowsView {
    let listing = listing(state, readings, triggering);
    WindowsView {
        session_groups: groups_added(Map::empty(), listing.rows),
        ..retained(listing.state, row_ids(listing.rows))
    }
}

/// The rows to show, merged by name and sorted by name and id.
pub open spec fn shown_rows(
    state: WindowsView,
    readings: Seq<ReadingView>,
    triggering: Seq<Seq<char>>,
) -> Seq<SessionView> {
    sorted(
        grouped_rows(listing(state, readings, triggering).rows, state.write_generations),
        by_name_then_id(),
    )
}

/// What a look at the sessions brings.
#[derive(Debug, PartialEq)]
pub struct ListedSessions {
    pub sessions: Vec<AppSession>,
    /// The volumes to write, by session id.
    pub volume_writes: Vec<(String, Level)>,
    /// Whether the settings changed and are to be saved.
    pub settings_changed: bool,
}

pub open spec fn write_views(writes: Seq<(String, Level)>) -> Seq<(Seq<char>, Level)> {
    writes.map_values(|w: (String, Level)| (w.0@, w.1))
}

/// Rows of single processes have the ids of these processes, and looking at the
/// sessions counts no change.
pub proof fn lemma_rows_listed(
    state: WindowsView,
    readings: Seq<ReadingView>,
    any: bool,
    triggering: Seq<Seq<char>>,
)
    ensures
        rows_listed(state, readings, any, triggering).rows.len() == readings.len(),
        forall|i: int|
            0 <= i < readings.len() ==> (#[trigger] rows_listed(
                state,
                readings,
                any,
                triggering,
            ).rows[i]).id == process_session_id(readings[i].raw.pid),
        rows_listed(state, readings, any, triggering).state.write_generations
            == state.write_generations,
        rows_listed(state, readings, any, triggering).state.captures == state.captures,
        rows_listed(state, readings, any, triggering).state.target_volume == state.target_volume,
    decreases readings.len(),
{
    if readings.len() > 0 {
        lemma_rows_listed(state, readings.drop_last(), any, triggering);
    }
}

/// Rows of single processes can be merged by name.
pub proof fn lemma_rows_groupable(
    state: WindowsView,
    readings: Seq<ReadingView>,
    any: bool,
    triggering: Seq<Seq<char>>,
)
    ensures
        groupable(rows_listed(state, readings, any, triggering).rows),
{
    let rows = rows_listed(state, readings, any, triggering).rows;
    lemma_rows_listed(state, readings, any, triggering);
    assert forall|i: int, j: int|
        0 <= i < j < rows.len() && (#[trigger] rows[i]).display_name == (
        #[trigger] rows[j]).display_name implies some_process_named(rows, rows[i].display_name) by {
        law_session_id_names_its_process(readings[i].raw.pid);
        assert(rows[i].id == process_session_id(readings[i].raw.pid));
        assert(process_of_session_id(rows[i].id) is Some);
    }
}

impl WindowsMixerBackend {
    fn want_captures(&self, raw: &Vec<RawSession>) -> (wanted: Vec<String>)
        ensures
            texts(wanted@) == wanted_ids(self@.settings, raw_views(raw@)),
    {
        let ghost all = raw_views(raw@);
        let mut wanted: Vec<String> = Vec::new();
        let mut i: usize = 0;
        assert(texts(wanted@) =~= wanted_ids(self@.settings, all.take(0)));
        while i < raw.len()
            invariant
                i <= raw@.len(),
                all == raw_views(raw@),
                texts(wanted@) == wanted_ids(self@.settings, all.take(i as int)),
            decreases raw@.len() - i,
        {
            let ghost before = wanted@;
            proof {
                assert(all.take(i + 1).drop_last() == all.take(i as int));
                assert(all.take(i + 1).last() == raw@[i as int]@);
            }
            if raw[i].is_active && listed(
                &self.ducking_settings.priority_triggers,
                &raw[i].display_name,
            ) {
                let id = session_id_for(raw[i].pid);
                wanted.push(id);
                assert(texts(wanted@) =~= texts(before).push(id@));
            }
            i += 1;
        }
        assert(all.take(i as int) == all);
        wanted
    }

    /// Takes in the sessions that were found: new ones get their present volume as the
    /// target, and `captures` becomes what should be listened to.
    pub fn begin_listing(&mut self, raw: &Vec<RawSession>)
        ensures
            final(self)@ == begun(old(self)@, raw_views(raw@)),
    {
        let ghost all = raw_views(raw@);
        let mut i: usize = 0;
        assert(all.take(0) =~= Seq::<RawView>::empty());
        while i < raw.len()
            invariant
                i <= raw@.len(),
                all == raw_views(raw@),
                self@ == (WindowsView {
                    target_volume: targets_seeded(old(self)@.target_volume, all.take(i as int)),
                    ..old(self)@
                }),
            decreases raw@.len() - i,
        {
            proof {
                assert(all.take(i + 1).drop_last() == all.take(i as int));
                assert(all.take(i + 1).last() == raw@[i as int]@);
            }
            let id = session_id_for(raw[i].pid);
            if !self.target_volume.contains(&id) {
                self.target_volume.insert(&id, raw[i].live_volume);
            }
            i += 1;
        }
        assert(all.take(i as int) == all);
        if self.ducking_settings.enabled && self.ducking_settings.priority_triggers.len() > 0 {
            let wanted = self.want_captures(raw);
            let ghost seeded = self@;
            let mut i: usize = 0;
            while i < raw.len()
                invariant
                    i <= raw@.len(),
                    all == raw_views(raw@),
                    texts(wanted@) == wanted_ids(old(self)@.settings, all),
                    self@ == (WindowsView {
                        captures: captures_started(
                            old(self)@.captures,
                            texts(wanted@),
                            all.take(i as int),
                        ),
                        ..seeded
                    }),
                decreases raw@.len() - i,
            {
                proof {
                    assert(all.take(i + 1).drop_last() == all.take(i as int));
                    assert(all.take(i + 1).last() == raw@[i as int]@);
                }
                let id = session_id_for(raw[i].pid);
                if listed(&wanted, &id) && !self.captures.contains(&id) {
                    self.captures.insert(&id, raw[i].pid);
                }
                i += 1;
            }
            assert(all.take(i as int) == all);
            self.captures.keep_only(&wanted);
        } else {
            self.captures = NameMap::new();
        }
    }

    fn anything_triggers(&self, triggering: &Vec<String>) -> (any: bool)
        ensures
            any == any_triggering(self@, texts(triggering@)),
    {
        let n: usize = self.captures.len();
        let mut i: usize = 0;
        while i < n
            invariant
                i <= n == self.captures.keys().len(),
                forall|k: Seq<char>|
                    self.captures.keys().contains(k) <==> self.captures@.dom().contains(k),
                forall|k: int|
                    0 <= k < i ==> !texts(triggering@).contains(
                        #[trigger] self.captures.keys()[k],
                    ),
            decreases n - i,
        {
            let id = self.captures.key_at(i);
            if listed(triggering, id) {
                assert(self@.captures.dom().contains(id@));
                return true;
            }
            i += 1;
        }
        proof {
            if any_triggering(self@, texts(triggering@)) {
                let id = choose|id: Seq<char>| #[trigger]
                    self@.captures.dom().contains(id) && texts(triggering@).contains(id);
                assert(self.captures.keys().contains(id));
                let k = choose|k: int|
                    0 <= k < self.captures.keys().len() && self.captures.keys()[k] == id;
                assert(!texts(triggering@).contains(self.captures.keys()[k]));
            }
        }
        false
    }

    fn add_row(
        &mut self,
        reading: SessionReading,
        any: bool,
        triggering: &Vec<String>,
        listed_so_far: ListedSessions,
        Ghost(before): Ghost<ListingView>,
    ) -> (now: ListedSessions)
        requires
            before == (ListingView {
                state: old(self)@,
                rows: session_views(listed_so_far.sessions@),
                writes: write_views(listed_so_far.volume_writes@),
                settings_changed: listed_so_far.settings_changed,
            }),
        ensures
            row_added(before, reading@, any, texts(triggering@)) == (ListingView {
                state: final(self)@,
                rows: session_views(now.sessions@),
                writes: write_views(now.volume_writes@),
                settings_changed: now.settings_changed,
            }),
    {
        let mut sessions = listed_so_far.sessions;
        let mut volume_writes = listed_so_far.volume_writes;
        let ghost sessions_before = sessions@;
        let ghost writes_before = volume_writes@;
        let raw = reading.raw;
        let id = session_id_for(raw.pid);
        let is_duck_trigger = self.captures.contains(&id) && listed(triggering, &id);
        let is_ducked = any && !is_duck_trigger;
        let target: Level = match self.target_volume.get(&id) {
            Some(volume) => *volume,
            None => raw.live_volume,
        };
        let effective: Level = if is_ducked {
            duck_volume(target)
        } else {
            target
        };
        let was_ducked = match self.applied_ducked.get(&id) {
            Some(ducked) => *ducked,
            None => false,
        };
        if was_ducked != is_ducked {
            volume_writes.push((id.clone(), effective));
            self.applied_ducked.insert(&id, is_ducked);
            assert(write_views(volume_writes@) =~= write_views(writes_before).push(
                (id@, effective),
            ));
        }
        let write_generation: u64 = match self.write_generations.get(&id) {
            Some(n) => *n,
            None => 0,
        };
        let output_device_id = self.debounce_output_device(&id, &reading.routed_device);
        let changed = keep_icon(
            &mut self.ducking_settings,
            &raw.display_name,
            &raw.icon_png,
            raw.is_active,
        );
        let session = AppSession {
            id,
            display_name: raw.display_name,
            icon_png: raw.icon_png,
            volume: target,
            effective_volume: effective,
            muted: raw.muted,
            balance: raw.balance,
            is_active: raw.is_active,
            is_duck_trigger,
            is_ducked,
            write_generation,
            output_device_id,
        };
        let ghost row = session@;
        sessions.push(session);
        assert(session_views(sessions@) =~= session_views(sessions_before).push(row));
        let now = ListedSessions {
            sessions,
            volume_writes,
            settings_changed: listed_so_far.settings_changed || changed,
        };
        proof {
            let after = row_added(before, reading@, any, texts(triggering@));
            assert(after.rows =~= session_views(now.sessions@));
            assert(after.writes =~= write_views(now.volume_writes@));
            assert(after.state =~= self@);
        }
        now
    }

    /// Turns what was read of the sessions into the rows to show and the volumes to
    /// write. `triggering` holds the ids of the captures that hear speech.
    pub fn finish_listing(
        &mut self,
        readings: Vec<SessionReading>,
        triggering: &Vec<String>,
    ) -> (result: ListedSessions)
        ensures
            final(self)@ == finished(old(self)@, reading_views(readings@), texts(triggering@)),
            session_views(result.sessions@) == shown_rows(
                old(self)@,
                reading_views(readings@),
                texts(triggering@),
            ),
            write_views(result.volume_writes@) == listing(
                old(self)@,
                reading_views(readings@),
                texts(triggering@),
            ).writes,
            result.settings_changed == listing(
                old(self)@,
                reading_views(readings@),
                texts(triggering@),
            ).settings_changed,
    {
        let any = self.anything_triggers(triggering);
        let ghost all = reading_views(readings@);
        let ghost ids = texts(triggering@);
        let ghost start = self@;
        let mut rest = readings;
        let mut so_far = ListedSessions {
            sessions: Vec::new(),
            volume_writes: Vec::new(),
            settings_changed: false,
        };
        let ghost mut done: int = 0;
        proof {
            assert(all.skip(0) == all);
            assert(all.take(0) =~= Seq::<ReadingView>::empty());
            assert(session_views(so_far.sessions@) =~= Seq::<SessionView>::empty());
            assert(write_views(so_far.volume_writes@) =~= Seq::<(Seq<char>, Level)>::empty());
        }
        while rest.len() > 0
            invariant
                0 <= done <= all.len(),
                ids == texts(triggering@),
                reading_views(rest@) == all.skip(done),
                rows_listed(start, all.take(done), any, ids) == (ListingView {
                    state: self@,
                    rows: session_views(so_far.sessions@),
                    writes: write_views(so_far.volume_writes@),
                    settings_changed: so_far.settings_changed,
                }),
            decreases rest@.len(),
        {
            let ghost rest_before = rest@;
            let reading = rest.remove(0);
            proof {
                assert(reading_views(rest_before)[0] == reading@);
                assert(reading_views(rest_before).len() > 0);
                assert(all.skip(done)[0] == all[done]);
                assert(reading_views(rest@) =~= reading_views(rest_before).skip(1));
                assert(all.skip(done).skip(1) == all.skip(done + 1));
                assert(all.take(done + 1).drop_last() == all.take(done));
                assert(all.take(done + 1).last() == reading@);
            }
            so_far = self.add_row(
                reading,
                any,
                triggering,
                so_far,
                Ghost(rows_listed(start, all.take(done), any, ids)),
            );
            proof {
                done = done + 1;
            }
        }
        assert(reading_views(rest@).len() == 0);
        assert(all.take(done) == all);
        let ghost listing = rows_listed(start, all, any, ids);
        let live = ids_of(&so_far.sessions);
        proof {
            lemma_rows_listed(start, all, any, ids);
            lemma_rows_groupable(start, all, any, ids);
            lemma_map_values_restrict(self.output_device_raw@, text_in(), name_set(texts(live@)));
            lemma_map_values_restrict(
                self.output_device_confirmed@,
                text_in(),
                name_set(texts(live@)),
            );
        }
        self.target_volume.keep_only(&live);
        self.applied_ducked.keep_only(&live);
        self.output_device_raw.keep_only(&live);
        self.output_device_confirmed.keep_only(&live);
        let rows = self.group_sessions_by_display_name(so_far.sessions);
        ListedSessions {
            sessions: sort_sessions(rows),
            volume_writes: so_far.volume_writes,
            settings_changed: so_far.settings_changed,
        }
    }
}

fn ids_of(sessions: &Vec<AppSession>) -> (ids: Vec<String>)
    ensures
        texts(ids@) == row_ids(session_views(sessions@)),
{
    let mut ids: Vec<String> = Vec::new();
    let mut i: usize = 0;
    while i < sessions.len()
        invariant
            i <= sessions@.len(),
            ids@.len() == i,
            forall|k: int| 0 <= k < i ==> (#[trigger] ids@[k])@ == sessions@[k].id@,
        decreases sessions@.len() - i,
    {
        ids.push(sessions[i].id.clone());
        i += 1;
    }
    assert(texts(ids@) =~= row_ids(session_views(sessions@)));
    ids
}

} // verus!
