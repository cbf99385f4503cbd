//! What the user interface can rely on: what it is told, and when.

use vstd::prelude::*;

use crate::level::Level;
use crate::poll::{
    device_texts, interval, list_changed, looked, pushed_views, PollView, PushedSession,
};
use crate::session::{opt_bytes, opt_text, AppSession, OutputDevice, SessionView};

verus! {

/// The same number: the bits are the same or both are zeros, and it is a number at all.
pub open spec fn equal_numbers(a: Level, b: Level) -> bool {
    let is_number = |l: Level| l.bits <= 0x7f80_0000 || 0x8000_0000 <= l.bits <= 0xff80_0000;
    let is_zero = |l: Level| l.bits == 0 || l.bits == 0x8000_0000;
    is_number(a) && is_number(b) && (a.bits == b.bits || is_zero(a) && is_zero(b))
}

/// Whether two sessions agree in everything.
pub open spec fn agree(a: SessionView, b: SessionView) -> bool {
    &&& (a.id, a.display_name, a.icon_png) == (b.id, b.display_name, b.icon_png)
    &&& (a.muted, a.is_active) == (b.muted, b.is_active)
    &&& (a.is_duck_trigger, a.is_ducked) == (b.is_duck_trigger, b.is_ducked)
    &&& (a.write_generation, a.output_device_id) == (b.write_generation, b.output_device_id)
    &&& equal_numbers(a.volume, b.volume)
    &&& equal_numbers(a.effective_volume, b.effective_volume)
    &&& equal_numbers(a.balance, b.balance)
}

/// Whether two lists agree at every place.
pub open spec fn lists_agree(a: Seq<SessionView>, b: Seq<SessionView>) -> bool {
    a.len() == b.len() && forall|i: int| 0 <= i < a.len() ==> agree(#[trigger] a[i], b[i])
}

/// Nothing is sent exactly if a list was sent before and agrees with the new one at every
/// place in everything that a session holds. So whatever changes is sent.
pub proof fn law_every_change_is_sent(poll: PollView, sessions: Seq<SessionView>)
    ensures
        !list_changed(poll.last, sessions) <==> (poll.last matches Some(last) && lists_agree(
            last,
            sessions,
        )),
{
    if let Some(last) = poll.last {
        if !list_changed(poll.last, sessions) {
            assert forall|i: int| 0 <= i < last.len() implies agree(
                #[trigger] last[i],
                sessions[i],
            ) by {}
        }
        if lists_agree(last, sessions) {
            assert forall|i: int| 0 <= i < last.len() implies crate::poll::same_session(
                #[trigger] last[i],
                sessions[i],
            ) by {
                assert(agree(last[i], sessions[i]));
            }
        }
    }
}

/// After a look the receiver is up to date: what was sent last agrees with what was found,
/// or is exactly that.
pub proof fn law_receiver_is_up_to_date(poll: PollView, sessions: Seq<SessionView>, now: u64)
    ensures
        looked(poll, sessions, now).last matches Some(last) && (last == sessions || poll.last
            == Some(last) && lists_agree(last, sessions)),
{
    law_every_change_is_sent(poll, sessions);
}

/// What is sent holds every session, in order, with everything but the icon as it is. The
/// icon comes along unless a list was sent before in which a session of the same id had the
/// same one.
pub proof fn law_what_is_sent_is_what_was_found(
    sessions: Seq<SessionView>,
    previous: Option<Seq<SessionView>>,
)
    ensures
        crate::poll::push(sessions, previous).len() == sessions.len(),
        forall|i: int|
            0 <= i < sessions.len() ==> {
                let sent = (#[trigger] crate::poll::push(sessions, previous)[i]).session;
                let found = sessions[i];
                &&& (sent.id, sent.display_name) == (found.id, found.display_name)
                &&& (sent.volume, sent.effective_volume) == (found.volume, found.effective_volume)
                &&& (sent.muted, sent.balance) == (found.muted, found.balance)
                &&& (sent.is_active, sent.is_ducked) == (found.is_active, found.is_ducked)
                &&& sent.is_duck_trigger == found.is_duck_trigger
                &&& sent.write_generation == found.write_generation
                &&& sent.output_device_id == found.output_device_id
            },
        forall|i: int|
            0 <= i < sessions.len() ==> match (#[trigger] crate::poll::push(sessions, previous)[i]).icon {
                Some(icon) => icon == sessions[i].icon_png && (previous matches Some(p) ==> forall|
                    k: int,
                |
                    0 <= k < p.len() && (#[trigger] p[k]).id == sessions[i].id ==> p[k].icon_png
                        != icon),
                None => previous matches Some(p) && exists|k: int|
                    0 <= k < p.len() && (#[trigger] p[k]).id == sessions[i].id && p[k].icon_png
                        == sessions[i].icon_png,
            },
{
}

/// What is sent holds what its fields say.
pub proof fn law_a_pushed_session_shows_its_fields(pushed: PushedSession)
    ensures
        ({
            let shown = pushed@.session;
            &&& (shown.id, shown.display_name) == (pushed.id@, pushed.display_name@)
            &&& (shown.volume, shown.effective_volume) == (pushed.volume, pushed.effective_volume)
            &&& (shown.muted, shown.balance) == (pushed.muted, pushed.balance)
            &&& (shown.is_active, shown.is_ducked) == (pushed.is_active, pushed.is_ducked)
            &&& shown.is_duck_trigger == pushed.is_duck_trigger
            &&& shown.write_generation == pushed.write_generation
            &&& shown.output_device_id == opt_text(pushed.output_device_id)
            &&& match pushed.icon_png {
                Some(icon) => pushed@.icon == Some(opt_bytes(icon)),
                None => pushed@.icon is None,
            }
        }),
{
}

/// A list that is sent holds as many sessions as its parts, each in its place.
pub proof fn law_pushed_views_are_in_place(pushed: Seq<PushedSession>)
    ensures
        pushed_views(pushed).len() == pushed.len(),
        forall|i: int| 0 <= i < pushed.len() ==> #[trigger] pushed_views(pushed)[i] == pushed[i]@,
{
}

/// Whether two lists name the same sessions and agree on who is ducked and who triggers it.
pub open spec fn ducking_agrees(a: Seq<SessionView>, b: Seq<SessionView>) -> bool {
    a.len() == b.len() && forall|i: int|
        0 <= i < a.len() ==> {
            let (x, y) = (#[trigger] a[i], b[i]);
            x.id == y.id && x.is_ducked == y.is_ducked && x.is_duck_trigger == y.is_duck_trigger
        }
}

/// The sessions are looked at every thirty milliseconds for six hundred from a look on that
/// finds a change of who is ducked or triggers it, as the first look does; a look that finds
/// none leaves the time as it was. Otherwise they are looked at every hundred and fifty.
pub proof fn law_when_to_look(poll: PollView, sessions: Seq<SessionView>, now: u64, later: u64)
    requires
        now + 600_000_000 <= u64::MAX,
    ensures
        ({
            let changed = !(poll.last matches Some(last) && ducking_agrees(last, sessions));
            let after = looked(poll, sessions, now);
            &&& changed ==> (interval(after, later) == if later < now + 600_000_000 {
                30_000_000u64
            } else {
                150_000_000u64
            })
            &&& !changed ==> interval(after, later) == interval(poll, later)
        }),
        poll.fast_poll_until is None ==> interval(poll, later) == 150_000_000,
{
    if let Some(last) = poll.last {
        let (a, b) = (crate::poll::duck_flags_of(last), crate::poll::duck_flags_of(sessions));
        if ducking_agrees(last, sessions) {
            assert forall|i: int| 0 <= i < a.len() implies a[i] == b[i] by {
                assert(last[i].id == sessions[i].id);
            }
            assert(a =~= b);
        } else if a == b {
            assert(a.len() == last.len() && b.len() == sessions.len());
            assert forall|i: int| 0 <= i < last.len() implies {
                let (x, y) = (#[trigger] last[i], sessions[i]);
                x.id == y.id && x.is_ducked == y.is_ducked && x.is_duck_trigger
                    == y.is_duck_trigger
            } by {
                assert(a[i] == b[i]);
            }
        }
    }
}

/// Two lists of output devices count as the same exactly if they hold the same devices, by
/// id and name, in the same order.
pub proof fn law_devices_are_told_apart(a: Seq<OutputDevice>, b: Seq<OutputDevice>)
    ensures
        device_texts(a) == device_texts(b) <==> a.len() == b.len() && forall|i: int|
            0 <= i < a.len() ==> (#[trigger] a[i]).id@ == b[i].id@ && a[i].name@ == b[i].name@,
{
    let (x, y) = (device_texts(a), device_texts(b));
    if a.len() == b.len() && forall|i: int|
        0 <= i < a.len() ==> (#[trigger] a[i]).id@ == b[i].id@ && a[i].name@ == b[i].name@ {
        assert forall|i: int| 0 <= i < x.len() implies x[i] == y[i] by {
            assert(a[i].id@ == b[i].id@);
        }
        assert(x =~= y);
    }
    if x == y {
        assert(x.len() == a.len() && y.len() == b.len());
        assert forall|i: int| 0 <= i < a.len() implies (#[trigger] a[i]).id@ == b[i].id@
            && a[i].name@ == b[i].name@ by {
            assert(x[i] == y[i]);
        }
    }
}

/// What a session is read as holds everything that its fields say.
pub proof fn law_a_session_shows_its_fields(session: AppSession)
    ensures
        ({
            let shown = session@;
            &&& (shown.id, shown.display_name) == (session.id@, session.display_name@)
            &&& shown.icon_png == opt_bytes(session.icon_png)
            &&& (shown.volume, shown.effective_volume) == (session.volume, session.effective_volume)
            &&& (shown.muted, shown.balance) == (session.muted, session.balance)
            &&& (shown.is_active, shown.is_ducked) == (session.is_active, session.is_ducked)
            &&& shown.is_duck_trigger == session.is_duck_trigger
            &&& shown.write_generation == session.write_generation
            &&& shown.output_device_id == opt_text(session.output_device_id)
        }),
{
}

} // verus!
