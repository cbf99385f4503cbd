//! Telling the user interface about changes: when to look, and what to send.

use vstd::prelude::*;

use crate::level::Level;
use crate::session::{
    copy_icon, copy_text, opt_bytes, opt_text, same_icon, same_name, session_views, AppSession,
    OutputDevice, SessionView,
};
use crate::text::same_text;

verus! {

/// How long to wait between two looks, in nanoseconds.
pub const POLL_INTERVAL_NANOS: u64 = 150_000_000;

/// How long to wait while somebody is starting or ceasing to be ducked.
pub const DUCK_TRANSITION_POLL_INTERVAL_NANOS: u64 = 30_000_000;

/// For how long to look more often after such a change.
pub const DUCK_TRANSITION_WINDOW_NANOS: u64 = 600_000_000;

/// How long to wait between two looks at the output devices.
pub const OUTPUT_DEVICES_POLL_INTERVAL_NANOS: u64 = 2_000_000_000;

/// A session as it is sent: like an `AppSession`, but the icon may be left out.
#[derive(Debug, PartialEq)]
pub struct PushedSession {
    pub id: String,
    pub display_name: String,
    /// `None` where the receiver has the icon already; else the icon, which may be none.
    pub icon_png: Option<Option<Vec<u8>>>,
    pub volume: Level,
    pub effective_volume: Level,
    pub muted: bool,
    pub balance: Level,
    pub is_active: bool,
    pub is_duck_trigger: bool,
    pub is_ducked: bool,
    pub write_generation: u64,
    pub output_device_id: Option<String>,
}

/// What a `PushedSession` holds: the session without its icon, and the icon if it is
/// sent.
#[verifier::ext_equal]
pub struct PushedView {
    pub session: SessionView,
    pub icon: Option<Option<Seq<u8>>>,
}

/// A session without its icon.
pub open spec fn without_icon(session: SessionView) -> SessionView {
    SessionView { icon_png: None, ..session }
}

impl View for PushedSession {
    type V = PushedView;

    open spec fn view(&self) -> PushedView {
        PushedView {
            session: SessionView {
                id: self.id@,
                display_name: self.display_name@,
                icon_png: None,
                volume: self.volume,
                effective_volume: self.effective_volume,
                muted: self.muted,
                balance: self.balance,
                is_active: self.is_active,
                is_duck_trigger: self.is_duck_trigger,
                is_ducked: self.is_ducked,
                write_generation: self.write_generation,
                output_device_id: opt_text(self.output_device_id),
            },
            icon: match self.icon_png {
                Some(icon) => Some(opt_bytes(icon)),
                None => None,
            },
        }
    }
}

pub open spec fn pushed_views(pushed: Seq<PushedSession>) -> Seq<PushedView> {
    pushed.map_values(|p: PushedSession| p@)
}

/// Whether a list held the session with the same icon.
pub open spec fn holds_icon(
    previous: Seq<SessionView>,
    id: Seq<char>,
    icon: Option<Seq<u8>>,
) -> bool {
    exists|i: int|
        0 <= i < previous.len() && (#[trigger] previous[i]).id == id && previous[i].icon_png
            == icon
}

/// A session as it is sent, after the sessions that were sent before: its icon is left
/// out if it went along with the same id then.
pub open spec fn pushed(
    session: SessionView,
    previous: Option<Seq<SessionView>>,
) -> PushedView {
    PushedView {
        session: without_icon(session),
        icon: if previous matches Some(p) && holds_icon(p, session.id, session.icon_png) {
            None
        } else {
            Some(session.icon_png)
        },
    }
}

/// All sessions as they are sent.
pub open spec fn push(
    sessions: Seq<SessionView>,
    previous: Option<Seq<SessionView>>,
) -> Seq<PushedView> {
    Seq::new(sessions.len(), |i: int| pushed(sessions[i], previous))
}

pub open spec fn opt_sessions(sessions: Option<Vec<AppSession>>) -> Option<Seq<SessionView>> {
    match sessions {
        Some(s) => Some(session_views(s@)),
        None => None,
    }
}

fn already_delivered(previous: &Option<Vec<AppSession>>, session: &AppSession) -> (yes: bool)
    ensures
        yes == (opt_sessions(*previous) matches Some(p) && holds_icon(
            p,
            session@.id,
            session@.icon_png,
        )),
{
    match previous {
        Some(sessions) => {
            let ghost views = session_views(sessions@);
            let mut i: usize = 0;
            while i < sessions.len()
                invariant
                    i <= sessions@.len(),
                    views == session_views(sessions@),
                    opt_sessions(*previous) == Some(views),
                    forall|k: int|
                        0 <= k < i ==> !((#[trigger] views[k]).id == session@.id
                            && views[k].icon_png == session@.icon_png),
                decreases sessions@.len() - i,
            {
                assert(views[i as int] == sessions@[i as int]@);
                if same_text(&sessions[i].id, &session.id) && same_icon(
                    &sessions[i].icon_png,
                    &session.icon_png,
                ) {
                    assert(holds_icon(views, session@.id, session@.icon_png));
                    return true;
                }
                i += 1;
            }
            false
        },
        None => false,
    }
}

/// The sessions as they are sent, after those that were sent before.
pub fn pushed_sessions(sessions: &Vec<AppSession>, last_pushed: &Option<Vec<AppSession>>) -> (result:
    Vec<PushedSession>)
    ensures
        pushed_views(result@) == push(session_views(sessions@), opt_sessions(*last_pushed)),
{
    let mut result: Vec<PushedSession> = Vec::new();
    let mut i: usize = 0;
    while i < sessions.len()
        invariant
            i <= sessions@.len(),
            result@.len() == i,
            forall|k: int|
                0 <= k < i ==> (#[trigger] result@[k])@ == pushed(
                    sessions@[k]@,
                    opt_sessions(*last_pushed),
                ),
        decreases sessions@.len() - i,
    {
        let session = &sessions[i];
        let icon_png = if already_delivered(last_pushed, session) {
            None
        } else {
            Some(copy_icon(&session.icon_png))
        };
        let item = PushedSession {
            id: session.id.clone(),
            display_name: session.display_name.clone(),
            icon_png,
            volume: session.volume,
            effective_volume: session.effective_volume,
            muted: session.muted,
            balance: session.balance,
            is_active: session.is_active,
            is_duck_trigger: session.is_duck_trigger,
            is_ducked: session.is_ducked,
            write_generation: session.write_generation,
            output_device_id: copy_text(&session.output_device_id),
        };
        assert(item@ =~= pushed(session@, opt_sessions(*last_pushed)));
        result.push(item);
        i += 1;
    }
    assert(pushed_views(result@) =~= push(session_views(sessions@), opt_sessions(*last_pushed)));
    result
}

/// Whatever is sent, the receiver has the right icon: either it comes along, or the list
/// sent before held the same one for the session. Where that list held the session once,
/// the icon that it held is the right one.
pub proof fn law_receiver_has_every_icon(
    sessions: Seq<SessionView>,
    previous: Seq<SessionView>,
    i: int,
)
    requires
        0 <= i < sessions.len(),
    ensures
        match push(sessions, Some(previous))[i].icon {
            Some(icon) => icon == sessions[i].icon_png,
            None => holds_icon(previous, sessions[i].id, sessions[i].icon_png),
        },
        push(sessions, Some(previous))[i].icon is None ==> forall|k: int|
            0 <= k < previous.len() && (#[trigger] previous[k]).id == sessions[i].id && (forall|
                m: int,
            |
                0 <= m < previous.len() && m != k ==> (#[trigger] previous[m]).id
                    != sessions[i].id) ==> previous[k].icon_png == sessions[i].icon_png,
{
}

/// A session that was not sent before is sent with its icon.
pub proof fn law_new_session_carries_its_icon(
    sessions: Seq<SessionView>,
    previous: Option<Seq<SessionView>>,
    i: int,
)
    requires
        0 <= i < sessions.len(),
        previous matches Some(p) ==> forall|k: int|
            0 <= k < p.len() ==> (#[trigger] p[k]).id != sessions[i].id,
    ensures
        push(sessions, previous)[i].icon == Some(sessions[i].icon_png),
{
}

/// Nothing but icons is ever left out.
pub proof fn law_only_icons_are_left_out(
    sessions: Seq<SessionView>,
    previous: Option<Seq<SessionView>>,
    i: int,
)
    requires
        0 <= i < sessions.len(),
    ensures
        push(sessions, previous)[i].session == without_icon(sessions[i]),
{
}

/// The same session to the eye: numbers are compared as numbers.
pub open spec fn same_session(a: SessionView, b: SessionView) -> bool {
    &&& a.id == b.id
    &&& a.display_name == b.display_name
    &&& a.icon_png == b.icon_png
    &&& a.volume.same(b.volume)
    &&& a.effective_volume.same(b.effective_volume)
    &&& a.muted == b.muted
    &&& a.balance.same(b.balance)
    &&& a.is_active == b.is_active
    &&& a.is_duck_trigger == b.is_duck_trigger
    &&& a.is_ducked == b.is_ducked
    &&& a.write_generation == b.write_generation
    &&& a.output_device_id == b.output_device_id
}

pub open spec fn same_sessions(a: Seq<SessionView>, b: Seq<SessionView>) -> bool {
    a.len() == b.len() && forall|i: int|
        0 <= i < a.len() ==> same_session(#[trigger] a[i], b[i])
}

/// Who is ducked and who triggers it, session by session.
pub open spec fn duck_flags_of(sessions: Seq<SessionView>) -> Seq<(Seq<char>, bool, bool)> {
    sessions.map_values(|s: SessionView| (s.id, s.is_ducked, s.is_duck_trigger))
}

/// Whether two lists agree on who is ducked and who triggers it.
pub fn same_duck_flags(a: &Vec<AppSession>, b: &Vec<AppSession>) -> (same: bool)
    ensures
        same == (duck_flags_of(session_views(a@)) == duck_flags_of(session_views(b@))),
{
    let ghost fa = duck_flags_of(session_views(a@));
    let ghost fb = duck_flags_of(session_views(b@));
    if a.len() != b.len() {
        assert(fa.len() != fb.len());
        return false;
    }
    let mut i: usize = 0;
    while i < a.len()
        invariant
            i <= a@.len() == b@.len(),
            fa == duck_flags_of(session_views(a@)),
            fb == duck_flags_of(session_views(b@)),
            forall|k: int| 0 <= k < i ==> #[trigger] fa[k] == fb[k],
        decreases a@.len() - i,
    {
        assert(fa[i as int] == (a@[i as int]@.id, a@[i as int]@.is_ducked, a@[i as int]@.is_duck_trigger));
        assert(fb[i as int] == (b@[i as int]@.id, b@[i as int]@.is_ducked, b@[i as int]@.is_duck_trigger));
        if !same_text(&a[i].id, &b[i].id) || a[i].is_ducked != b[i].is_ducked
            || a[i].is_duck_trigger != b[i].is_duck_trigger {
            assert(fa[i as int] != fb[i as int]);
            return false;
        }
        i += 1;
    }
    assert(fa =~= fb);
    true
}

fn session_same(a: &AppSession, b: &AppSession) -> (same: bool)
    ensures
        same == same_session(a@, b@),
{
    same_text(&a.id, &b.id) && same_text(&a.display_name, &b.display_name) && same_icon(
        &a.icon_png,
        &b.icon_png,
    ) && a.volume.is_same(b.volume) && a.effective_volume.is_same(b.effective_volume) && a.muted
        == b.muted && a.balance.is_same(b.balance) && a.is_active == b.is_active
        && a.is_duck_trigger == b.is_duck_trigger && a.is_ducked == b.is_ducked
        && a.write_generation == b.write_generation && same_name(
        &a.output_device_id,
        &b.output_device_id,
    )
}

/// Whether two lists show the same.
pub fn lists_same(a: &Vec<AppSession>, b: &Vec<AppSession>) -> (same: bool)
    ensures
        same == same_sessions(session_views(a@), session_views(b@)),
{
    let ghost va = session_views(a@);
    let ghost vb = session_views(b@);
    if a.len() != b.len() {
        assert(va.len() != vb.len());
        return false;
    }
    let mut i: usize = 0;
    while i < a.len()
        invariant
            i <= a@.len() == b@.len(),
            va == session_views(a@),
            vb == session_views(b@),
            forall|k: int| 0 <= k < i ==> same_session(#[trigger] va[k], vb[k]),
        decreases a@.len() - i,
    {
        assert(va[i as int] == a@[i as int]@ && vb[i as int] == b@[i as int]@);
        if !session_same(&a[i], &b[i]) {
            assert(!same_session(va[i as int], vb[i as int]));
            return false;
        }
        i += 1;
    }
    true
}

/// What is remembered between two looks at the sessions. Times are in nanoseconds.
pub struct SessionPoll {
    /// What was last sent.
    pub last: Option<Vec<AppSession>>,
    /// Until when to look more often.
    pub fast_poll_until: Option<u64>,
}

/// What a `SessionPoll` holds.
#[verifier::ext_equal]
pub struct PollView {
    pub last: Option<Seq<SessionView>>,
    pub fast_poll_until: Option<u64>,
}

impl View for SessionPoll {
    type V = PollView;

    open spec fn view(&self) -> PollView {
        PollView { last: opt_sessions(self.last), fast_poll_until: self.fast_poll_until }
    }
}

/// How long to wait before the next look.
pub open spec fn interval(poll: PollView, now: u64) -> u64 {
    if poll.fast_poll_until matches Some(until) && now < until {
        DUCK_TRANSITION_POLL_INTERVAL_NANOS
    } else {
        POLL_INTERVAL_NANOS
    }
}

/// Whether it has changed who is ducked or triggers it.
pub open spec fn duck_changed(
    last: Option<Seq<SessionView>>,
    sessions: Seq<SessionView>,
) -> bool {
    match last {
        Some(l) => duck_flags_of(l) != duck_flags_of(sessions),
        None => true,
    }
}

/// Whether there is anything to send.
pub open spec fn list_changed(
    last: Option<Seq<SessionView>>,
    sessions: Seq<SessionView>,
) -> bool {
    match last {
        Some(l) => !same_sessions(l, sessions),
        None => true,
    }
}

/// The state after a look.
pub open spec fn looked(poll: PollView, sessions: Seq<SessionView>, now: u64) -> PollView {
    PollView {
        last: if list_changed(poll.last, sessions) {
            Some(sessions)
        } else {
            poll.last
        },
        fast_poll_until: if duck_changed(poll.last, sessions) {
            Some((now + DUCK_TRANSITION_WINDOW_NANOS) as u64)
        } else {
            poll.fast_poll_until
        },
    }
}

impl SessionPoll {
    pub fn new() -> (poll: Self)
        ensures
            poll@ == (PollView { last: None, fast_poll_until: None }),
    {
        SessionPoll { last: None, fast_poll_until: None }
    }

    /// How long to wait before the next look, in nanoseconds.
    pub fn next_interval(&self, now: u64) -> (nanos: u64)
        ensures
            nanos == interval(self@, now),
    {
        match self.fast_poll_until {
            Some(until) => if now < until {
                DUCK_TRANSITION_POLL_INTERVAL_NANOS
            } else {
                POLL_INTERVAL_NANOS
            },
            None => POLL_INTERVAL_NANOS,
        }
    }

    /// Takes in the sessions that were found, and gives what to send, if anything has
    /// changed.
    pub fn on_sessions(&mut self, sessions: Vec<AppSession>, now: u64) -> (payload: Option<
        Vec<PushedSession>,
    >)
        requires
            now + DUCK_TRANSITION_WINDOW_NANOS <= u64::MAX,
        ensures
            final(self)@ == looked(old(self)@, session_views(sessions@), now),
            match payload {
                Some(p) => list_changed(old(self)@.last, session_views(sessions@)) && pushed_views(
                    p@,
                ) == push(session_views(sessions@), old(self)@.last),
                None => !list_changed(old(self)@.last, session_views(sessions@)),
            },
    {
        let (flags_same, list_same) = match &self.last {
            Some(last) => (same_duck_flags(last, &sessions), lists_same(last, &sessions)),
            None => (false, false),
        };
        if !flags_same {
            self.fast_poll_until = Some(now + DUCK_TRANSITION_WINDOW_NANOS);
        }
        if list_same {
            return None;
        }
        let payload = pushed_sessions(&sessions, &self.last);
        self.last = Some(sessions);
        Some(payload)
    }
}

/// A list that looks like the one sent last is not sent again.
pub proof fn law_nothing_is_sent_twice(poll: PollView, sessions: Seq<SessionView>, now: u64)
    requires
        forall|i: int|
            0 <= i < sessions.len() ==> {
                let s = #[trigger] sessions[i];
                !s.volume.is_nan() && !s.effective_volume.is_nan() && !s.balance.is_nan()
            },
    ensures
        looked(poll, sessions, now).last matches Some(l) && same_sessions(l, sessions),
        !list_changed(looked(poll, sessions, now).last, sessions),
{
    if !list_changed(poll.last, sessions) {
    } else {
        assert(same_sessions(sessions, sessions));
    }
}

/// After a change of who is ducked the sessions are looked at more often, for as long as
/// the window lasts and no longer.
pub proof fn law_fast_only_within_the_window(
    poll: PollView,
    sessions: Seq<SessionView>,
    now: u64,
    later: u64,
)
    requires
        now + DUCK_TRANSITION_WINDOW_NANOS <= u64::MAX,
        duck_changed(poll.last, sessions),
    ensures
        interval(looked(poll, sessions, now), later) == DUCK_TRANSITION_POLL_INTERVAL_NANOS
            <==> later < now + DUCK_TRANSITION_WINDOW_NANOS,
{
}

pub open spec fn device_texts(devices: Seq<OutputDevice>) -> Seq<(Seq<char>, Seq<char>)> {
    devices.map_values(|d: OutputDevice| (d.id@, d.name@))
}

fn devices_same(a: &Vec<OutputDevice>, b: &Vec<OutputDevice>) -> (same: bool)
    ensures
        same == (device_texts(a@) == device_texts(b@)),
{
    let ghost ta = device_texts(a@);
    let ghost tb = device_texts(b@);
    if a.len() != b.len() {
        assert(ta.len() != tb.len());
        return false;
    }
    let mut i: usize = 0;
    while i < a.len()
        invariant
            i <= a@.len() == b@.len(),
            ta == device_texts(a@),
            tb == device_texts(b@),
            forall|k: int| 0 <= k < i ==> #[trigger] ta[k] == tb[k],
        decreases a@.len() - i,
    {
        assert(ta[i as int] == (a@[i as int].id@, a@[i as int].name@));
        assert(tb[i as int] == (b@[i as int].id@, b@[i as int].name@));
        if !same_text(&a[i].id, &b[i].id) || !same_text(&a[i].name, &b[i].name) {
            assert(ta[i as int] != tb[i as int]);
            return false;
        }
        i += 1;
    }
    assert(ta =~= tb);
    true
}

/// What is remembered between two looks at the output devices.
pub struct DevicePoll {
    /// What was last sent.
    pub last: Option<Vec<OutputDevice>>,
}

impl View for DevicePoll {
    type V = Option<Seq<(Seq<char>, Seq<char>)>>;

    open spec fn view(&self) -> Option<Seq<(Seq<char>, Seq<char>)>> {
        match self.last {
            Some(devices) => Some(device_texts(devices@)),
            None => None,
        }
    }
}

impl DevicePoll {
    pub fn new() -> (poll: Self)
        ensures
            poll@ is None,
    {
        DevicePoll { last: None }
    }

    /// Takes in the devices that were found. The result says whether to send them: they
    /// differ from those sent last.
    pub fn on_devices(&mut self, devices: Vec<OutputDevice>) -> (changed: bool)
        ensures
            changed <==> old(self)@ != Some(device_texts(devices@)),
            final(self)@ == Some(device_texts(devices@)),
    {
        let same = match &self.last {
            Some(last) => devices_same(last, &devices),
            None => false,
        };
        if !same {
            self.last = Some(devices);
        }
        !same
    }
}

} // verus!
