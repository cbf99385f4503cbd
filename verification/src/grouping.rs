//! Rows for applications that run as several processes: sessions with the same
//! display name are merged into one.

use vstd::prelude::*;

use crate::name_map::NameMap;
use crate::order::{lemma_insert_position, sorted};
use crate::seqs::{
    lemma_filter_drops_first, lemma_filter_members, lemma_filter_none, lemma_filter_take,
    lemma_map_values_insert,
};
use crate::session::{
    copy_icon, copy_text, generation_of, opt_bytes, session_views, AppSession, SessionView,
};
use crate::text::{same_text, with_number};
use crate::windows::{
    group_session_id, numbers_in, pid_from_session_id, process_of_session_id, WindowsMixerBackend,
    WindowsView,
};

verus! {

pub open spec fn named(name: Seq<char>) -> spec_fn(SessionView) -> bool {
    |s: SessionView| s.display_name == name
}

pub open spec fn named_otherwise(name: Seq<char>) -> spec_fn(SessionView) -> bool {
    |s: SessionView| s.display_name != name
}

/// Where a session stands among its like: by process id, those without one last.
pub open spec fn pid_key(id: Seq<char>) -> u32 {
    match process_of_session_id(id) {
        Some(pid) => pid,
        None => u32::MAX,
    }
}

pub open spec fn by_pid() -> spec_fn(SessionView, SessionView) -> bool {
    |a: SessionView, b: SessionView| pid_key(a.id) <= pid_key(b.id)
}

/// The process ids among the ids of the rows.
pub open spec fn pids_of(rows: Seq<SessionView>) -> Seq<u32>
    decreases rows.len(),
{
    if rows.len() == 0 {
        Seq::empty()
    } else {
        match process_of_session_id(rows.last().id) {
            Some(pid) => pids_of(rows.drop_last()).push(pid),
            None => pids_of(rows.drop_last()),
        }
    }
}

/// The first icon that any of the rows has.
pub open spec fn first_icon(rows: Seq<SessionView>) -> Option<Seq<u8>>
    decreases rows.len(),
{
    if rows.len() == 0 {
        None
    } else if rows[0].icon_png is Some {
        rows[0].icon_png
    } else {
        first_icon(rows.skip(1))
    }
}

pub open spec fn any_active(rows: Seq<SessionView>) -> bool {
    exists|i: int| 0 <= i < rows.len() && (#[trigger] rows[i]).is_active
}

pub open spec fn any_trigger(rows: Seq<SessionView>) -> bool {
    exists|i: int| 0 <= i < rows.len() && (#[trigger] rows[i]).is_duck_trigger
}

pub open spec fn any_ducked(rows: Seq<SessionView>) -> bool {
    exists|i: int| 0 <= i < rows.len() && (#[trigger] rows[i]).is_ducked
}

/// The row for several sessions of one name, given in the order of their process
/// ids: that of the first, active, triggering or ducked where any of them is, with
/// the first icon that any of them has.
pub open spec fn merged_row(
    members: Seq<SessionView>,
    generations: Map<Seq<char>, u64>,
) -> SessionView {
    let id = group_session_id(pids_of(members)[0]);
    SessionView {
        id,
        icon_png: first_icon(members),
        is_active: any_active(members),
        is_duck_trigger: any_trigger(members),
        is_ducked: any_ducked(members),
        write_generation: generation_of(generations, id),
        ..members[0]
    }
}

/// The sessions of one name, in the order of their process ids.
pub open spec fn members_named(rows: Seq<SessionView>, name: Seq<char>) -> Seq<SessionView> {
    sorted(rows.filter(named(name)), by_pid())
}

/// One row per name, in the order in which the names first occur. A name that only
/// one session has keeps its session as it is.
pub open spec fn grouped_rows(
    rows: Seq<SessionView>,
    generations: Map<Seq<char>, u64>,
) -> Seq<SessionView>
    decreases rows.len(),
{
    if rows.len() == 0 {
        Seq::empty()
    } else {
        let name = rows[0].display_name;
        let own = rows.filter(named(name));
        let first = if own.len() == 1 {
            own[0]
        } else {
            merged_row(members_named(rows, name), generations)
        };
        proof {
            lemma_filter_drops_first(rows, named_otherwise(name));
        }
        seq![first] + grouped_rows(rows.filter(named_otherwise(name)), generations)
    }
}

/// The processes behind each merged row, added to `groups`.
pub open spec fn groups_added(
    groups: Map<Seq<char>, Seq<u32>>,
    rows: Seq<SessionView>,
) -> Map<Seq<char>, Seq<u32>>
    decreases rows.len(),
{
    if rows.len() == 0 {
        groups
    } else {
        let name = rows[0].display_name;
        let pids = pids_of(members_named(rows, name));
        proof {
            lemma_filter_drops_first(rows, named_otherwise(name));
        }
        groups_added(
            if rows.filter(named(name)).len() == 1 {
                groups
            } else {
                groups.insert(group_session_id(pids[0]), pids)
            },
            rows.filter(named_otherwise(name)),
        )
    }
}

/// Whether a name that several sessions have is that of some process's session: a
/// merged row takes its id from one.
pub open spec fn groupable(rows: Seq<SessionView>) -> bool {
    forall|i: int, j: int|
        0 <= i < j < rows.len() && (#[trigger] rows[i]).display_name == (
        #[trigger] rows[j]).display_name ==> some_process_named(rows, rows[i].display_name)
}

pub open spec fn some_process_named(rows: Seq<SessionView>, name: Seq<char>) -> bool {
    exists|k: int|
        0 <= k < rows.len() && (#[trigger] rows[k]).display_name == name && process_of_session_id(
            rows[k].id,
        ) is Some
}

fn session_pid_key(session: &AppSession) -> (key: u32)
    ensures
        key == pid_key(session@.id),
{
    match pid_from_session_id(&session.id) {
        Some(pid) => pid,
        None => u32::MAX,
    }
}

fn sort_by_pid(sessions: Vec<AppSession>) -> (result: Vec<AppSession>)
    ensures
        session_views(result@) == sorted(session_views(sessions@), by_pid()),
{
    let ghost all = session_views(sessions@);
    let ghost le = by_pid();
    let mut rest = sessions;
    let mut result: Vec<AppSession> = Vec::new();
    let ghost mut done: int = 0;
    assert(all.skip(0) == all);
    assert(session_views(result@) =~= sorted(all.take(0), le));
    while rest.len() > 0
        invariant
            0 <= done <= all.len(),
            le == by_pid(),
            session_views(rest@) == all.skip(done),
            session_views(result@) == sorted(all.take(done), le),
        decreases rest@.len(),
    {
        let ghost rest_before = rest@;
        let ghost placed = session_views(result@);
        let x = rest.remove(0);
        let key: u32 = session_pid_key(&x);
        let mut p: usize = result.len();
        while p > 0 && session_pid_key(&result[p - 1]) > key
            invariant
                p <= result@.len(),
                le == by_pid(),
                key == pid_key(x@.id),
                placed == session_views(result@),
                forall|k: int| p <= k < placed.len() ==> !le(#[trigger] placed[k], x@),
            decreases p,
        {
            p -= 1;
        }
        result.insert(p, x);
        proof {
            assert(session_views(rest_before)[0] == x@);
            assert(session_views(rest_before).len() > 0);
            assert(all.skip(done)[0] == all[done]);
            assert(session_views(rest@) =~= session_views(rest_before).skip(1));
            assert(all.skip(done).skip(1) == all.skip(done + 1));
            lemma_insert_position(placed, x@, le, p as int);
            assert(session_views(result@) =~= placed.insert(p as int, x@));
            assert(all.take(done + 1).drop_last() == all.take(done));
            assert(all.take(done + 1).last() == x@);
            done = done + 1;
        }
    }
    assert(session_views(rest@).len() == 0);
    assert(all.take(done) == all);
    result
}

/// Parts the sessions of one name from the others.
fn part_by_name(sessions: Vec<AppSession>, name: &str) -> (parts: (
    Vec<AppSession>,
    Vec<AppSession>,
))
    ensures
        session_views(parts.0@) == session_views(sessions@).filter(named(name@)),
        session_views(parts.1@) == session_views(sessions@).filter(named_otherwise(name@)),
{
    let ghost all = session_views(sessions@);
    let ghost p = named(name@);
    let ghost q = named_otherwise(name@);
    let mut rest = sessions;
    let mut own: Vec<AppSession> = Vec::new();
    let mut others: Vec<AppSession> = Vec::new();
    let ghost mut done: int = 0;
    proof {
        lemma_filter_none(all, p);
        lemma_filter_none(all, q);
        assert(all.skip(0) == all);
        assert(session_views(own@) =~= Seq::<SessionView>::empty());
        assert(session_views(others@) =~= Seq::<SessionView>::empty());
    }
    while rest.len() > 0
        invariant
            0 <= done <= all.len(),
            p == named(name@),
            q == named_otherwise(name@),
            session_views(rest@) == all.skip(done),
            session_views(own@) == all.take(done).filter(p),
            session_views(others@) == all.take(done).filter(q),
        decreases rest@.len(),
    {
        let ghost rest_before = rest@;
        let ghost own_before = own@;
        let ghost others_before = others@;
        let x = rest.remove(0);
        proof {
            assert(session_views(rest_before)[0] == x@);
            assert(session_views(rest_before).len() > 0);
            assert(all.skip(done)[0] == all[done]);
            assert(session_views(rest@) =~= session_views(rest_before).skip(1));
            assert(all.skip(done).skip(1) == all.skip(done + 1));
            lemma_filter_take(all, p, done);
            lemma_filter_take(all, q, done);
        }
        if same_text(&x.display_name, name) {
            own.push(x);
            assert(session_views(own@) =~= session_views(own_before).push(x@));
        } else {
            others.push(x);
            assert(session_views(others@) =~= session_views(others_before).push(x@));
        }
        proof {
            done = done + 1;
        }
    }
    assert(session_views(rest@).len() == 0);
    assert(all.take(done) == all);
    (own, others)
}

fn collect_pids(members: &Vec<AppSession>) -> (pids: Vec<u32>)
    ensures
        pids@ == pids_of(session_views(members@)),
{
    let ghost all = session_views(members@);
    let mut pids: Vec<u32> = Vec::new();
    let mut i: usize = 0;
    assert(all.take(0) =~= Seq::<SessionView>::empty());
    while i < members.len()
        invariant
            i <= members@.len(),
            all == session_views(members@),
            pids@ == pids_of(all.take(i as int)),
        decreases members@.len() - i,
    {
        proof {
            assert(all.take(i + 1).drop_last() == all.take(i as int));
            assert(all.take(i + 1).last() == members@[i as int]@);
        }
        if let Some(pid) = pid_from_session_id(&members[i].id) {
            pids.push(pid);
        }
        i += 1;
    }
    assert(all.take(i as int) == all);
    pids
}

proof fn lemma_pids_of_some(rows: Seq<SessionView>, k: int)
    requires
        0 <= k < rows.len(),
        process_of_session_id(rows[k].id) is Some,
    ensures
        pids_of(rows).len() > 0,
    decreases rows.len(),
{
    if k < rows.len() - 1 {
        lemma_pids_of_some(rows.drop_last(), k);
    }
}

fn merge(members: Vec<AppSession>, generations: &NameMap<u64>) -> (merged: (
    AppSession,
    Vec<u32>,
))
    requires
        members@.len() > 0,
        pids_of(session_views(members@)).len() > 0,
    ensures
        merged.0@ == merged_row(session_views(members@), generations@),
        merged.1@ == pids_of(session_views(members@)),
{
    let ghost rows = session_views(members@);
    let pids = collect_pids(&members);
    let id = with_number("win-group-", pids[0] as u64);
    let mut is_active = false;
    let mut is_duck_trigger = false;
    let mut is_ducked = false;
    let mut icon_png: Option<Vec<u8>> = None;
    let mut i: usize = 0;
    assert(rows.skip(0) == rows);
    while i < members.len()
        invariant
            i <= members@.len(),
            rows == session_views(members@),
            is_active == any_active(rows.take(i as int)),
            is_duck_trigger == any_trigger(rows.take(i as int)),
            is_ducked == any_ducked(rows.take(i as int)),
            icon_png is Some ==> opt_bytes(icon_png) == first_icon(rows),
            icon_png is None ==> first_icon(rows) == first_icon(rows.skip(i as int)),
        decreases members@.len() - i,
    {
        let ghost before = rows.take(i as int);
        let ghost after = rows.take(i + 1);
        proof {
            assert(after =~= before.push(rows[i as int]));
            assert(rows[i as int] == members@[i as int]@);
            assert(after[i as int] == rows[i as int]);
            assert forall|k: int| 0 <= k < before.len() implies before[k] == after[k] by {}
            if any_active(before) {
                let k = choose|k: int| 0 <= k < before.len() && (#[trigger] before[k]).is_active;
                assert(after[k].is_active);
            }
            if any_trigger(before) {
                let k = choose|k: int|
                    0 <= k < before.len() && (#[trigger] before[k]).is_duck_trigger;
                assert(after[k].is_duck_trigger);
            }
            if any_ducked(before) {
                let k = choose|k: int| 0 <= k < before.len() && (#[trigger] before[k]).is_ducked;
                assert(after[k].is_ducked);
            }
            assert(any_active(after) == (any_active(before) || rows[i as int].is_active));
            assert(any_trigger(after) == (any_trigger(before) || rows[i as int].is_duck_trigger));
            assert(any_ducked(after) == (any_ducked(before) || rows[i as int].is_ducked));
            assert(rows.skip(i as int)[0] == rows[i as int]);
            assert(rows.skip(i as int).skip(1) == rows.skip(i + 1));
        }
        let member = &members[i];
        is_active = is_active || member.is_active;
        is_duck_trigger = is_duck_trigger || member.is_duck_trigger;
        is_ducked = is_ducked || member.is_ducked;
        if icon_png.is_none() {
            icon_png = copy_icon(&member.icon_png);
        }
        i += 1;
    }
    assert(rows.take(i as int) == rows);
    assert(rows.skip(i as int).len() == 0);
    let write_generation: u64 = match generations.get(&id) {
        Some(n) => *n,
        None => 0,
    };
    let anchor = &members[0];
    assert(rows[0] == anchor@);
    let row = AppSession {
        id,
        display_name: anchor.display_name.clone(),
        icon_png,
        volume: anchor.volume,
        effective_volume: anchor.effective_volume,
        muted: anchor.muted,
        balance: anchor.balance,
        is_active,
        is_duck_trigger,
        is_ducked,
        write_generation,
        output_device_id: copy_text(&anchor.output_device_id),
    };
    assert(row@ =~= merged_row(rows, generations@));
    (row, pids)
}

/// Where several sessions share a name, a process is among them, also after sorting.
proof fn lemma_members_have_pids(rows: Seq<SessionView>)
    requires
        rows.len() > 0,
        groupable(rows),
        rows.filter(named(rows[0].display_name)).len() != 1,
    ensures
        pids_of(members_named(rows, rows[0].display_name)).len() > 0,
        members_named(rows, rows[0].display_name).len() > 1,
{
    let name = rows[0].display_name;
    let own = rows.filter(named(name));
    let members = members_named(rows, name);
    lemma_filter_members(rows, named(name));
    lemma_sorted_members(own, by_pid());
    assert(rows.contains(rows[0]));
    assert(own.contains(rows[0]));
    assert(own.len() > 1);
    lemma_two_of_filter(rows, named(name));
    let (i, j) = choose|i: int, j: int|
        0 <= i < j < rows.len() && #[trigger] named(name)(rows[i]) && #[trigger] named(name)(
            rows[j],
        );
    assert(rows[i].display_name == rows[j].display_name);
    let k = choose|k: int|
        0 <= k < rows.len() && (#[trigger] rows[k]).display_name == name && process_of_session_id(
            rows[k].id,
        ) is Some;
    assert(rows.contains(rows[k]));
    assert(own.contains(rows[k]));
    assert(members.contains(rows[k]));
    let m = choose|m: int| 0 <= m < members.len() && members[m] == rows[k];
    lemma_pids_of_some(members, m);
}

proof fn lemma_insert_sorted_members<A>(s: Seq<A>, x: A, le: spec_fn(A, A) -> bool)
    ensures
        crate::order::insert_sorted(s, x, le).len() == s.len() + 1,
        forall|y: A|
            #[trigger] crate::order::insert_sorted(s, x, le).contains(y) <==> s.contains(y) || y
                == x,
    decreases s.len(),
{
    let t = crate::order::insert_sorted(s, x, le);
    if s.len() == 0 || le(s.last(), x) {
        crate::seqs::lemma_push_members(s, x);
    } else {
        let init = s.drop_last();
        let u = crate::order::insert_sorted(init, x, le);
        lemma_insert_sorted_members(init, x, le);
        crate::seqs::lemma_push_members(u, s.last());
        crate::seqs::lemma_push_members(init, s.last());
        assert(init.push(s.last()) == s);
        assert forall|y: A| #[trigger] t.contains(y) <==> s.contains(y) || y == x by {
            assert(u.push(s.last()).contains(y) == t.contains(y));
            assert(init.push(s.last()).contains(y) == s.contains(y));
            assert(u.contains(y) == (init.contains(y) || y == x));
        }
    }
}

/// Sorting keeps the members and their number.
pub proof fn lemma_sorted_members<A>(s: Seq<A>, le: spec_fn(A, A) -> bool)
    ensures
        sorted(s, le).len() == s.len(),
        forall|y: A| #[trigger] sorted(s, le).contains(y) <==> s.contains(y),
    decreases s.len(),
{
    if s.len() > 0 {
        let init = s.drop_last();
        lemma_sorted_members(init, le);
        lemma_insert_sorted_members(sorted(init, le), s.last(), le);
        crate::seqs::lemma_push_members(init, s.last());
        assert(init.push(s.last()) == s);
        assert forall|y: A| #[trigger] sorted(s, le).contains(y) <==> s.contains(y) by {
            assert(init.push(s.last()).contains(y) == s.contains(y));
            assert(sorted(init, le).contains(y) == init.contains(y));
        }
    }
}

/// Where more than one element passes a filter, two places hold one that does.
proof fn lemma_two_of_filter<A>(s: Seq<A>, p: spec_fn(A) -> bool)
    requires
        s.filter(p).len() > 1,
    ensures
        exists|i: int, j: int|
            0 <= i < j < s.len() && #[trigger] p(s[i]) && #[trigger] p(s[j]),
    decreases s.len(),
{
    reveal(Seq::filter);
    let init = s.drop_last();
    let last = s.len() - 1;
    if init.filter(p).len() > 1 {
        lemma_two_of_filter(init, p);
        let (i, j) = choose|i: int, j: int|
            0 <= i < j < init.len() && #[trigger] p(init[i]) && #[trigger] p(init[j]);
        assert(p(s[i]) && p(s[j]));
    } else {
        let kept = init.filter(p);
        assert(kept.len() == 1);
        assert(p(s[last]));
        lemma_filter_members(init, p);
        assert(kept.contains(kept[0]));
        let i = choose|i: int| 0 <= i < init.len() && init[i] == kept[0];
        assert(p(s[i]));
    }
}

/// Leaving out all sessions of one name leaves the others groupable.
proof fn lemma_rest_groupable(rows: Seq<SessionView>)
    requires
        rows.len() > 0,
        groupable(rows),
    ensures
        groupable(rows.filter(named_otherwise(rows[0].display_name))),
{
    let q = named_otherwise(rows[0].display_name);
    let rest = rows.filter(q);
    lemma_filter_members(rows, q);
    assert forall|i: int, j: int|
        0 <= i < j < rest.len() && (#[trigger] rest[i]).display_name == (
        #[trigger] rest[j]).display_name implies some_process_named(rest, rest[i].display_name) by {
        let name = rest[i].display_name;
        assert(rest.contains(rest[i]));
        assert(rest.contains(rest[j]));
        lemma_two_named(rows, q, i, j);
        let (a, b) = choose|a: int, b: int|
            0 <= a < b < rows.len() && #[trigger] rows[a] == rest[i] && #[trigger] rows[b]
                == rest[j];
        let k = choose|k: int|
            0 <= k < rows.len() && (#[trigger] rows[k]).display_name == name
                && process_of_session_id(rows[k].id) is Some;
        assert(rows.contains(rows[k]));
        assert(rest.contains(rows[k]));
        let m = choose|m: int| 0 <= m < rest.len() && rest[m] == rows[k];
        assert(rest[m].display_name == name);
    }
}

/// Two places of a filtered sequence come from two places of the sequence.
pub proof fn lemma_two_named<A>(s: Seq<A>, p: spec_fn(A) -> bool, i: int, j: int)
    requires
        0 <= i < j < s.filter(p).len(),
    ensures
        exists|a: int, b: int|
            0 <= a < b < s.len() && #[trigger] s[a] == s.filter(p)[i] && #[trigger] s[b]
                == s.filter(p)[j],
    decreases s.len(),
{
    reveal(Seq::filter);
    let init = s.drop_last();
    let kept = init.filter(p);
    if j < kept.len() {
        lemma_two_named(init, p, i, j);
        let (a, b) = choose|a: int, b: int|
            0 <= a < b < init.len() && #[trigger] init[a] == kept[i] && #[trigger] init[b]
                == kept[j];
        assert(s[a] == s.filter(p)[i] && s[b] == s.filter(p)[j]);
    } else {
        lemma_filter_members(init, p);
        assert(kept.contains(kept[i]));
        let a = choose|a: int| 0 <= a < init.len() && init[a] == kept[i];
        assert(s[a] == s.filter(p)[i] && s[s.len() - 1] == s.filter(p)[j]);
    }
}

impl WindowsMixerBackend {
    /// Merges the sessions that share a display name, and remembers which processes
    /// each merged row stands for.
    pub fn group_sessions_by_display_name(&mut self, sessions: Vec<AppSession>) -> (rows: Vec<
        AppSession,
    >)
        requires
            groupable(session_views(sessions@)),
        ensures
            session_views(rows@) == grouped_rows(
                session_views(sessions@),
                old(self)@.write_generations,
            ),
            final(self)@ == (WindowsView {
                session_groups: groups_added(Map::empty(), session_views(sessions@)),
                ..old(self)@
            }),
    {
        let ghost all = session_views(sessions@);
        let ghost generations = self@.write_generations;
        let mut rest = sessions;
        let mut rows: Vec<AppSession> = Vec::new();
        let mut groups: NameMap<Vec<u32>> = NameMap::new();
        proof {
            assert(session_views(rows@) + grouped_rows(all, generations) =~= grouped_rows(
                all,
                generations,
            ));
            assert(groups@.map_values(numbers_in()) =~= Map::<Seq<char>, Seq<u32>>::empty());
        }
        while rest.len() > 0
            invariant
                groupable(session_views(rest@)),
                *self == *old(self),
                generations == self@.write_generations,
                session_views(rows@) + grouped_rows(session_views(rest@), generations)
                    == grouped_rows(all, generations),
                groups_added(groups@.map_values(numbers_in()), session_views(rest@))
                    == groups_added(Map::empty(), all),
            decreases rest@.len(),
        {
            let ghost left = session_views(rest@);
            let ghost rows_before = rows@;
            let name = rest[0].display_name.clone();
            assert(left[0].display_name == name@);
            let (own, others) = part_by_name(rest, &name);
            let mut own = own;
            proof {
                lemma_filter_drops_first(left, named_otherwise(name@));
                lemma_rest_groupable(left);
                assert(session_views(others@).len() == others@.len());
                assert(left.len() == rest@.len());
                lemma_filter_members(left, named(name@));
                assert(left.contains(left[0]));
                assert(session_views(own@).contains(left[0]));
            }
            if own.len() == 1 {
                let only = own.remove(0);
                assert(session_views(own@.insert(0, only))[0] == only@);
                assert(left.filter(named(name@))[0] == only@);
                rows.push(only);
                proof {
                    assert(session_views(rows@) =~= session_views(rows_before).push(only@));
                }
            } else {
                proof {
                    lemma_members_have_pids(left);
                }
                let members = sort_by_pid(own);
                assert(session_views(members@).len() == members@.len());
                let (row, pids) = merge(members, &self.write_generations);
                let ghost groups_before = groups@;
                proof {
                    lemma_map_values_insert(groups@, numbers_in(), group_session_id(pids@[0]), pids);
                }
                groups.insert(&row.id, pids);
                rows.push(row);
                proof {
                    assert(session_views(rows@) =~= session_views(rows_before).push(row@));
                }
            }
            proof {
                let first = session_views(rows@).last();
                assert(session_views(rows_before) + (seq![first] + grouped_rows(
                    left.filter(named_otherwise(name@)),
                    generations,
                )) =~= session_views(rows_before).push(first) + grouped_rows(
                    left.filter(named_otherwise(name@)),
                    generations,
                ));
            }
            rest = others;
        }
        assert(session_views(rest@).len() == 0);
        self.session_groups = groups;
        rows
    }
}

} // verus!
