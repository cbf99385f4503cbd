//! What holds of merged rows: each name is shown once, and a row stands for exactly the
//! processes of its name.

use vstd::prelude::*;

use crate::grouping::{
    by_pid, first_icon, grouped_rows, groups_added, lemma_sorted_members, lemma_two_named,
    members_named, merged_row, named, named_otherwise, pids_of,
};
use crate::order::{
    by_name_then_id, in_order, insert_sorted, law_sorted, lemma_by_name_then_id_is_total, sorted,
};
use crate::seqs::{lemma_filter_drops_first, lemma_filter_members, lemma_push_members};
use crate::session::{generation_of, SessionView};
use crate::text::lemma_decimal_reads_back;
use crate::text_laws::{agree_before, law_texts_are_in_dictionary_order};
use crate::windows::{
    group_session_id, law_group_id_names_no_process, law_session_id_names_its_process, member_pids,
    process_of_session_id, process_session_id, WindowsView,
};
use crate::windows_laws::{distinct_processes, law_rows};
use crate::windows_listing::{
    any_triggering, finished, lemma_rows_listed, listing, shown_rows, ReadingView,
};

verus! {

/// The row for all sessions of one name.
pub open spec fn row_of(
    rows: Seq<SessionView>,
    name: Seq<char>,
    generations: Map<Seq<char>, u64>,
) -> SessionView {
    let own = rows.filter(named(name));
    if own.len() == 1 {
        own[0]
    } else {
        merged_row(members_named(rows, name), generations)
    }
}

/// Whether a name occurs among the rows.
pub open spec fn has_name(rows: Seq<SessionView>, name: Seq<char>) -> bool {
    exists|i: int| 0 <= i < rows.len() && (#[trigger] rows[i]).display_name == name
}

/// Whether no name occurs twice.
pub open spec fn distinct_names(rows: Seq<SessionView>) -> bool {
    forall|i: int, j: int|
        0 <= i < j < rows.len() ==> (#[trigger] rows[i]).display_name != (
        #[trigger] rows[j]).display_name
}

/// Whether the row of a process and a name is among the rows.
pub open spec fn has_process(rows: Seq<SessionView>, pid: u32, name: Seq<char>) -> bool {
    exists|i: int|
        0 <= i < rows.len() && (#[trigger] rows[i]).display_name == name && process_of_session_id(
            rows[i].id,
        ) == Some(pid)
}

/// Whether every row is that of a process, and no two rows of the same.
pub open spec fn process_rows(rows: Seq<SessionView>) -> bool {
    &&& forall|i: int|
        0 <= i < rows.len() ==> process_of_session_id((#[trigger] rows[i]).id) is Some
    &&& forall|i: int, j: int|
        0 <= i < j < rows.len() ==> process_of_session_id((#[trigger] rows[i]).id)
            != process_of_session_id((#[trigger] rows[j]).id)
}

proof fn lemma_filter_other_name(rows: Seq<SessionView>, name: Seq<char>, other: Seq<char>)
    requires
        name != other,
    ensures
        rows.filter(named_otherwise(name)).filter(named(other)) == rows.filter(named(other)),
    decreases rows.len(),
{
    reveal(Seq::filter);
    if rows.len() > 0 {
        let init = rows.drop_last();
        lemma_filter_other_name(init, name, other);
        let kept = init.filter(named_otherwise(name));
        if named_otherwise(name)(rows.last()) {
            assert(kept.push(rows.last()).drop_last() == kept);
        }
    }
}

proof fn lemma_members(rows: Seq<SessionView>, name: Seq<char>)
    ensures
        members_named(rows, name).len() == rows.filter(named(name)).len(),
        forall|s: SessionView| #[trigger]
            members_named(rows, name).contains(s) <==> rows.contains(s) && s.display_name == name,
        has_name(rows, name) <==> rows.filter(named(name)).len() > 0,
        has_name(rows, name) ==> members_named(rows, name)[0].display_name == name,
{
    let own = rows.filter(named(name));
    let members = members_named(rows, name);
    lemma_filter_members(rows, named(name));
    lemma_sorted_members(own, by_pid());
    assert forall|s: SessionView| #[trigger] members.contains(s) <==> rows.contains(s)
        && s.display_name == name by {
        assert(own.contains(s) <==> rows.contains(s) && named(name)(s));
    }
    if has_name(rows, name) {
        let i = choose|i: int| 0 <= i < rows.len() && (#[trigger] rows[i]).display_name == name;
        assert(rows.contains(rows[i]));
        assert(own.contains(rows[i]));
    }
    if own.len() > 0 {
        assert(members.contains(members[0]));
        let i = choose|i: int| 0 <= i < rows.len() && rows[i] == members[0];
        assert(rows[i].display_name == name);
    }
}

proof fn lemma_row_of_name(
    rows: Seq<SessionView>,
    name: Seq<char>,
    generations: Map<Seq<char>, u64>,
)
    requires
        has_name(rows, name),
    ensures
        row_of(rows, name, generations).display_name == name,
{
    let own = rows.filter(named(name));
    lemma_members(rows, name);
    lemma_filter_members(rows, named(name));
    if own.len() == 1 {
        assert(own.contains(own[0]));
    }
}

/// The names of the rows that are left when all rows of one name are taken out.
proof fn lemma_rest_names(rows: Seq<SessionView>, name: Seq<char>, other: Seq<char>)
    ensures
        has_name(rows.filter(named_otherwise(name)), other) <==> has_name(rows, other) && other
            != name,
{
    let rest = rows.filter(named_otherwise(name));
    lemma_filter_members(rows, named_otherwise(name));
    if has_name(rest, other) {
        let i = choose|i: int| 0 <= i < rest.len() && (#[trigger] rest[i]).display_name == other;
        assert(rest.contains(rest[i]));
        let k = choose|k: int| 0 <= k < rows.len() && rows[k] == rest[i];
        assert(rows[k].display_name == other);
    }
    if has_name(rows, other) && other != name {
        let k = choose|k: int| 0 <= k < rows.len() && (#[trigger] rows[k]).display_name == other;
        assert(rows.contains(rows[k]));
        assert(rest.contains(rows[k]));
        let i = choose|i: int| 0 <= i < rest.len() && rest[i] == rows[k];
        assert(rest[i].display_name == other);
    }
}

/// One row per name that occurs.
proof fn lemma_grouped(rows: Seq<SessionView>, generations: Map<Seq<char>, u64>)
    ensures
        distinct_names(grouped_rows(rows, generations)),
        forall|name: Seq<char>|
            has_name(grouped_rows(rows, generations), name) <==> #[trigger] has_name(rows, name),
        forall|k: int|
            0 <= k < grouped_rows(rows, generations).len() ==> #[trigger] grouped_rows(
                rows,
                generations,
            )[k] == row_of(rows, grouped_rows(rows, generations)[k].display_name, generations),
    decreases rows.len(),
{
    let grouped = grouped_rows(rows, generations);
    if rows.len() > 0 {
        let name = rows[0].display_name;
        let rest = rows.filter(named_otherwise(name));
        let others = grouped_rows(rest, generations);
        lemma_filter_drops_first(rows, named_otherwise(name));
        lemma_grouped(rest, generations);
        assert(has_name(rows, name));
        lemma_row_of_name(rows, name, generations);
        assert(grouped == seq![row_of(rows, name, generations)] + others);
        assert forall|k: int| 0 < k < grouped.len() implies #[trigger] grouped[k] == others[k - 1]
            && grouped[k].display_name != name && grouped[k] == row_of(
            rows,
            grouped[k].display_name,
            generations,
        ) by {
            let other = others[k - 1].display_name;
            assert(has_name(others, other));
            assert(has_name(rest, other));
            lemma_rest_names(rows, name, other);
            lemma_filter_other_name(rows, name, other);
        }
        assert forall|n: Seq<char>| has_name(grouped, n) <==> #[trigger] has_name(rows, n) by {
            lemma_rest_names(rows, name, n);
            assert(has_name(others, n) <==> has_name(rest, n));
            if has_name(grouped, n) {
                let k = choose|k: int|
                    0 <= k < grouped.len() && (#[trigger] grouped[k]).display_name == n;
                if k > 0 {
                    assert(others[k - 1].display_name == n);
                }
            }
            if has_name(rows, n) {
                if n == name {
                    assert(grouped[0].display_name == n);
                } else {
                    let k = choose|k: int|
                        0 <= k < others.len() && (#[trigger] others[k]).display_name == n;
                    assert(grouped[k + 1].display_name == n);
                }
            }
        }
        assert forall|i: int, j: int| 0 <= i < j < grouped.len() implies (
        #[trigger] grouped[i]).display_name != (#[trigger] grouped[j]).display_name by {
            if i > 0 {
                assert(others[i - 1].display_name != others[j - 1].display_name);
            }
        }
    } else {
        assert forall|n: Seq<char>| has_name(grouped, n) <==> #[trigger] has_name(rows, n) by {}
    }
}

proof fn lemma_insert_distinct(
    s: Seq<SessionView>,
    x: SessionView,
    le: spec_fn(SessionView, SessionView) -> bool,
)
    requires
        distinct_names(s),
        !has_name(s, x.display_name),
    ensures
        distinct_names(insert_sorted(s, x, le)),
        forall|name: Seq<char>| #[trigger]
            has_name(insert_sorted(s, x, le), name) <==> has_name(s, name) || name
                == x.display_name,
    decreases s.len(),
{
    let t = insert_sorted(s, x, le);
    if s.len() == 0 || le(s.last(), x) {
        lemma_push_distinct(s, x);
    } else {
        let init = s.drop_last();
        let last = s.last();
        assert(init.push(last) == s);
        lemma_init_distinct(s);
        assert(!has_name(init, x.display_name));
        lemma_insert_distinct(init, x, le);
        assert(s[s.len() - 1].display_name != x.display_name);
        assert(!has_name(insert_sorted(init, x, le), last.display_name));
        lemma_push_distinct(insert_sorted(init, x, le), last);
    }
}

proof fn lemma_push_distinct(s: Seq<SessionView>, x: SessionView)
    requires
        distinct_names(s),
        !has_name(s, x.display_name),
    ensures
        distinct_names(s.push(x)),
        forall|name: Seq<char>| #[trigger]
            has_name(s.push(x), name) <==> has_name(s, name) || name == x.display_name,
{
    let t = s.push(x);
    assert forall|i: int, j: int| 0 <= i < j < t.len() implies (#[trigger] t[i]).display_name != (
    #[trigger] t[j]).display_name by {
        if j < s.len() {
            assert(s[i].display_name != s[j].display_name);
        } else {
            assert(s[i].display_name != x.display_name);
        }
    }
    assert forall|name: Seq<char>| #[trigger] has_name(t, name) <==> has_name(s, name) || name
        == x.display_name by {
        if has_name(t, name) {
            let i = choose|i: int| 0 <= i < t.len() && (#[trigger] t[i]).display_name == name;
            if i < s.len() {
                assert(s[i].display_name == name);
            }
        }
        if has_name(s, name) {
            let i = choose|i: int| 0 <= i < s.len() && (#[trigger] s[i]).display_name == name;
            assert(t[i].display_name == name);
        }
        assert(t[s.len() as int].display_name == x.display_name);
    }
}

proof fn lemma_init_distinct(s: Seq<SessionView>)
    requires
        s.len() > 0,
        distinct_names(s),
    ensures
        distinct_names(s.drop_last()),
        !has_name(s.drop_last(), s.last().display_name),
        forall|name: Seq<char>| #[trigger]
            has_name(s, name) <==> has_name(s.drop_last(), name) || name == s.last().display_name,
{
    let init = s.drop_last();
    assert forall|i: int, j: int| 0 <= i < j < init.len() implies (
    #[trigger] init[i]).display_name != (#[trigger] init[j]).display_name by {
        assert(s[i].display_name != s[j].display_name);
    }
    assert(!has_name(init, s.last().display_name)) by {
        if has_name(init, s.last().display_name) {
            let i = choose|i: int|
                0 <= i < init.len() && (#[trigger] init[i]).display_name == s.last().display_name;
            assert(s[i].display_name != s[s.len() - 1].display_name);
        }
    }
    lemma_push_distinct(init, s.last());
    assert(init.push(s.last()) == s);
}

proof fn lemma_sorted_distinct(
    s: Seq<SessionView>,
    le: spec_fn(SessionView, SessionView) -> bool,
)
    requires
        distinct_names(s),
    ensures
        distinct_names(sorted(s, le)),
        forall|name: Seq<char>| #[trigger] has_name(sorted(s, le), name) <==> has_name(s, name),
    decreases s.len(),
{
    if s.len() > 0 {
        lemma_init_distinct(s);
        lemma_sorted_distinct(s.drop_last(), le);
        lemma_insert_distinct(sorted(s.drop_last(), le), s.last(), le);
    }
}

/// Each name that a session has is shown exactly once, no other name is shown, and the
/// rows are in the order of their names.
pub proof fn law_each_name_is_shown_once(
    state: WindowsView,
    readings: Seq<ReadingView>,
    triggering: Seq<Seq<char>>,
)
    ensures
        distinct_names(shown_rows(state, readings, triggering)),
        in_order(shown_rows(state, readings, triggering), by_name_then_id()),
        forall|name: Seq<char>| #[trigger]
            has_name(shown_rows(state, readings, triggering), name) <==> exists|i: int|
                0 <= i < readings.len() && (#[trigger] readings[i]).raw.display_name == name,
{
    let rows = listing(state, readings, triggering).rows;
    let grouped = grouped_rows(rows, state.write_generations);
    let le = by_name_then_id();
    lemma_grouped(rows, state.write_generations);
    lemma_sorted_distinct(grouped, le);
    lemma_by_name_then_id_is_total();
    law_sorted(grouped, le);
    lemma_listed_names(state, readings, triggering);
    assert forall|name: Seq<char>| #[trigger]
        has_name(shown_rows(state, readings, triggering), name) <==> exists|i: int|
            0 <= i < readings.len() && (#[trigger] readings[i]).raw.display_name == name by {
        assert(has_name(sorted(grouped, le), name) <==> has_name(grouped, name));
        assert(has_name(grouped, name) <==> has_name(rows, name));
    }
}

proof fn lemma_listed_names(
    state: WindowsView,
    readings: Seq<ReadingView>,
    triggering: Seq<Seq<char>>,
)
    ensures
        listing(state, readings, triggering).rows.len() == readings.len(),
        forall|i: int|
            0 <= i < readings.len() ==> {
                let row = #[trigger] listing(state, readings, triggering).rows[i];
                &&& row.display_name == readings[i].raw.display_name
                &&& row.id == process_session_id(readings[i].raw.pid)
                &&& process_of_session_id(row.id) == Some(readings[i].raw.pid)
            },
        forall|name: Seq<char>| #[trigger]
            has_name(listing(state, readings, triggering).rows, name) <==> exists|i: int|
                0 <= i < readings.len() && (#[trigger] readings[i]).raw.display_name == name,
{
    let rows = listing(state, readings, triggering).rows;
    assert forall|i: int| 0 <= i < readings.len() implies {
        let row = #[trigger] rows[i];
        &&& row.display_name == readings[i].raw.display_name
        &&& row.id == process_session_id(readings[i].raw.pid)
        &&& process_of_session_id(row.id) == Some(readings[i].raw.pid)
    } by {
        law_rows(state, readings, triggering, i);
        law_session_id_names_its_process(readings[i].raw.pid);
    }
    if readings.len() > 0 {
        law_rows(state, readings, triggering, 0);
    }
    assert forall|name: Seq<char>| #[trigger] has_name(rows, name) <==> exists|i: int|
        0 <= i < readings.len() && (#[trigger] readings[i]).raw.display_name == name by {
        if has_name(rows, name) {
            let i = choose|i: int| 0 <= i < rows.len() && (#[trigger] rows[i]).display_name == name;
            assert(readings[i].raw.display_name == name);
        }
        if exists|i: int|
            0 <= i < readings.len() && (#[trigger] readings[i]).raw.display_name == name {
            let i = choose|i: int|
                0 <= i < readings.len() && (#[trigger] readings[i]).raw.display_name == name;
            assert(rows[i].display_name == name);
        }
    }
}

/// The processes of the rows are exactly those that their ids name.
proof fn lemma_pids(rows: Seq<SessionView>)
    ensures
        forall|pid: u32| #[trigger]
            pids_of(rows).contains(pid) <==> exists|i: int|
                0 <= i < rows.len() && process_of_session_id((#[trigger] rows[i]).id) == Some(pid),
        (forall|i: int|
            0 <= i < rows.len() ==> process_of_session_id((#[trigger] rows[i]).id) is Some)
            ==> pids_of(rows).len() == rows.len(),
    decreases rows.len(),
{
    let pids = pids_of(rows);
    if rows.len() > 0 {
        let init = rows.drop_last();
        lemma_pids(init);
        let last = process_of_session_id(rows.last().id);
        if last is Some {
            lemma_push_members(pids_of(init), last.unwrap());
        }
        assert forall|pid: u32| #[trigger] pids.contains(pid) <==> exists|i: int|
            0 <= i < rows.len() && process_of_session_id((#[trigger] rows[i]).id) == Some(pid) by {
            assert(pids_of(init).contains(pid) <==> exists|i: int|
                0 <= i < init.len() && process_of_session_id((#[trigger] init[i]).id) == Some(pid));
            if last is Some {
                assert(pids_of(init).push(last.unwrap()).contains(pid) == pids.contains(pid));
            }
            if exists|i: int|
                0 <= i < rows.len() && process_of_session_id((#[trigger] rows[i]).id) == Some(
                    pid,
                ) {
                let i = choose|i: int|
                    0 <= i < rows.len() && process_of_session_id((#[trigger] rows[i]).id) == Some(
                        pid,
                    );
                if i < init.len() {
                    assert(init[i] == rows[i]);
                }
            }
            if exists|i: int|
                0 <= i < init.len() && process_of_session_id((#[trigger] init[i]).id) == Some(
                    pid,
                ) {
                let i = choose|i: int|
                    0 <= i < init.len() && process_of_session_id((#[trigger] init[i]).id) == Some(
                        pid,
                    );
                assert(rows[i] == init[i]);
            }
            assert(rows[rows.len() - 1] == rows.last());
        }
        if forall|i: int|
            0 <= i < rows.len() ==> process_of_session_id((#[trigger] rows[i]).id) is Some {
            assert forall|i: int| 0 <= i < init.len() implies process_of_session_id(
                (#[trigger] init[i]).id,
            ) is Some by {
                assert(rows[i] == init[i]);
            }
            assert(process_of_session_id(rows[rows.len() - 1].id) is Some);
        }
    }
}

/// The processes of one name are those whose rows have it.
proof fn lemma_member_pids(rows: Seq<SessionView>, name: Seq<char>)
    requires
        process_rows(rows),
    ensures
        forall|pid: u32| #[trigger]
            pids_of(members_named(rows, name)).contains(pid) <==> has_process(rows, pid, name),
        has_name(rows, name) ==> pids_of(members_named(rows, name)).len() > 0,
{
    let members = members_named(rows, name);
    lemma_members(rows, name);
    lemma_pids(members);
    assert forall|pid: u32| #[trigger] pids_of(members).contains(pid) <==> has_process(
        rows,
        pid,
        name,
    ) by {
        if pids_of(members).contains(pid) {
            let i = choose|i: int|
                0 <= i < members.len() && process_of_session_id((#[trigger] members[i]).id)
                    == Some(pid);
            assert(members.contains(members[i]));
            let k = choose|k: int| 0 <= k < rows.len() && rows[k] == members[i];
            assert(rows[k].display_name == name);
        }
        if has_process(rows, pid, name) {
            let k = choose|k: int|
                0 <= k < rows.len() && (#[trigger] rows[k]).display_name == name
                    && process_of_session_id(rows[k].id) == Some(pid);
            assert(rows.contains(rows[k]));
            assert(members.contains(rows[k]));
            let i = choose|i: int| 0 <= i < members.len() && members[i] == rows[k];
            assert(process_of_session_id(members[i].id) == Some(pid));
        }
    }
    if has_name(rows, name) {
        assert(members.contains(members[0]));
        let k = choose|k: int| 0 <= k < rows.len() && rows[k] == members[0];
        assert(process_of_session_id(rows[k].id) is Some);
        let pid = process_of_session_id(members[0].id).unwrap();
        assert(pids_of(members).contains(pid));
    }
}

/// Two merged rows of different lowest processes have different ids.
proof fn lemma_group_ids_differ(a: u32, b: u32)
    requires
        a != b,
    ensures
        group_session_id(a) != group_session_id(b),
{
    lemma_decimal_reads_back(a as nat);
    lemma_decimal_reads_back(b as nat);
    let prefix = "win-group-"@;
    assert(group_session_id(a).skip(prefix.len() as int) =~= crate::text::decimal(a as nat));
    assert(group_session_id(b).skip(prefix.len() as int) =~= crate::text::decimal(b as nat));
}

/// What is left when all rows of one name are taken out are still rows of different
/// processes, none of which has that name.
proof fn lemma_rest_processes(rows: Seq<SessionView>, name: Seq<char>)
    requires
        process_rows(rows),
    ensures
        process_rows(rows.filter(named_otherwise(name))),
        forall|pid: u32, other: Seq<char>| #[trigger]
            has_process(rows.filter(named_otherwise(name)), pid, other) <==> has_process(
                rows,
                pid,
                other,
            ) && other != name,
{
    let q = named_otherwise(name);
    let rest = rows.filter(q);
    lemma_filter_members(rows, q);
    assert forall|i: int| 0 <= i < rest.len() implies process_of_session_id(
        (#[trigger] rest[i]).id,
    ) is Some by {
        assert(rest.contains(rest[i]));
        let k = choose|k: int| 0 <= k < rows.len() && rows[k] == rest[i];
        assert(process_of_session_id(rows[k].id) is Some);
    }
    assert forall|i: int, j: int| 0 <= i < j < rest.len() implies process_of_session_id(
        (#[trigger] rest[i]).id,
    ) != process_of_session_id((#[trigger] rest[j]).id) by {
        lemma_two_named(rows, q, i, j);
        let (a, b) = choose|a: int, b: int|
            0 <= a < b < rows.len() && #[trigger] rows[a] == rest[i] && #[trigger] rows[b]
                == rest[j];
        assert(process_of_session_id(rows[a].id) != process_of_session_id(rows[b].id));
    }
    assert forall|pid: u32, other: Seq<char>| #[trigger]
        has_process(rest, pid, other) <==> has_process(rows, pid, other) && other != name by {
        if has_process(rest, pid, other) {
            let i = choose|i: int|
                0 <= i < rest.len() && (#[trigger] rest[i]).display_name == other
                    && process_of_session_id(rest[i].id) == Some(pid);
            assert(rest.contains(rest[i]));
            let k = choose|k: int| 0 <= k < rows.len() && rows[k] == rest[i];
            assert(rows[k].display_name == other);
        }
        if has_process(rows, pid, other) && other != name {
            let k = choose|k: int|
                0 <= k < rows.len() && (#[trigger] rows[k]).display_name == other
                    && process_of_session_id(rows[k].id) == Some(pid);
            assert(rows.contains(rows[k]));
            assert(rest.contains(rows[k]));
            let i = choose|i: int| 0 <= i < rest.len() && rest[i] == rows[k];
            assert(rest[i].display_name == other);
        }
    }
}

/// A process belongs to rows of one name only.
proof fn lemma_one_name(rows: Seq<SessionView>, pid: u32, a: Seq<char>, b: Seq<char>)
    requires
        process_rows(rows),
        has_process(rows, pid, a),
        has_process(rows, pid, b),
    ensures
        a == b,
{
    let i = choose|i: int|
        0 <= i < rows.len() && (#[trigger] rows[i]).display_name == a && process_of_session_id(
            rows[i].id,
        ) == Some(pid);
    let j = choose|j: int|
        0 <= j < rows.len() && (#[trigger] rows[j]).display_name == b && process_of_session_id(
            rows[j].id,
        ) == Some(pid);
    if i < j {
        assert(process_of_session_id(rows[i].id) != process_of_session_id(rows[j].id));
    } else if j < i {
        assert(process_of_session_id(rows[j].id) != process_of_session_id(rows[i].id));
    }
}

/// Adding groups leaves one alone whose lowest process is not among the rows.
proof fn lemma_groups_keep(groups: Map<Seq<char>, Seq<u32>>, rows: Seq<SessionView>, pid: u32)
    requires
        process_rows(rows),
        groups.dom().contains(group_session_id(pid)),
        forall|name: Seq<char>| !#[trigger] has_process(rows, pid, name),
    ensures
        groups_added(groups, rows).dom().contains(group_session_id(pid)),
        groups_added(groups, rows)[group_session_id(pid)] == groups[group_session_id(pid)],
    decreases rows.len(),
{
    if rows.len() > 0 {
        let name = rows[0].display_name;
        let rest = rows.filter(named_otherwise(name));
        let pids = pids_of(members_named(rows, name));
        lemma_filter_drops_first(rows, named_otherwise(name));
        lemma_rest_processes(rows, name);
        lemma_member_pids(rows, name);
        assert(has_name(rows, name));
        assert(pids.contains(pids[0]));
        assert(has_process(rows, pids[0], name));
        lemma_group_ids_differ(pid, pids[0]);
        assert forall|other: Seq<char>| !#[trigger] has_process(rest, pid, other) by {
            assert(!has_process(rows, pid, other));
        }
        let next = if rows.filter(named(name)).len() == 1 {
            groups
        } else {
            groups.insert(group_session_id(pids[0]), pids)
        };
        lemma_groups_keep(next, rest, pid);
    }
}

/// Every name that several rows have gets its group.
proof fn lemma_groups(groups: Map<Seq<char>, Seq<u32>>, rows: Seq<SessionView>, name: Seq<char>)
    requires
        process_rows(rows),
        has_name(rows, name),
        rows.filter(named(name)).len() != 1,
    ensures
        ({
            let pids = pids_of(members_named(rows, name));
            &&& groups_added(groups, rows).dom().contains(group_session_id(pids[0]))
            &&& groups_added(groups, rows)[group_session_id(pids[0])] == pids
        }),
    decreases rows.len(),
{
    let first = rows[0].display_name;
    let rest = rows.filter(named_otherwise(first));
    let pids = pids_of(members_named(rows, first));
    lemma_filter_drops_first(rows, named_otherwise(first));
    lemma_rest_processes(rows, first);
    let next = if rows.filter(named(first)).len() == 1 {
        groups
    } else {
        groups.insert(group_session_id(pids[0]), pids)
    };
    if name == first {
        lemma_member_pids(rows, name);
        assert(pids.contains(pids[0]));
        assert(has_process(rows, pids[0], name));
        assert forall|other: Seq<char>| !#[trigger] has_process(rest, pids[0], other) by {
            if has_process(rest, pids[0], other) {
                lemma_one_name(rows, pids[0], name, other);
            }
        }
        lemma_groups_keep(next, rest, pids[0]);
    } else {
        lemma_rest_names(rows, first, name);
        lemma_filter_other_name(rows, first, name);
        lemma_groups(next, rest, name);
    }
}

/// Nothing but merged rows gets a group.
proof fn lemma_only_groups(groups: Map<Seq<char>, Seq<u32>>, rows: Seq<SessionView>, id: Seq<char>)
    requires
        process_of_session_id(id) is Some,
        !groups.dom().contains(id),
    ensures
        !groups_added(groups, rows).dom().contains(id),
    decreases rows.len(),
{
    if rows.len() > 0 {
        let name = rows[0].display_name;
        let pids = pids_of(members_named(rows, name));
        lemma_filter_drops_first(rows, named_otherwise(name));
        law_group_id_names_no_process(pids[0]);
        let next = if rows.filter(named(name)).len() == 1 {
            groups
        } else {
            groups.insert(group_session_id(pids[0]), pids)
        };
        lemma_only_groups(next, rows.filter(named_otherwise(name)), id);
    }
}

/// A row that is shown carries the count of the changes that were made to it, so that a
/// reading from before a change can be told from one after it.
pub proof fn law_row_carries_its_count(
    state: WindowsView,
    readings: Seq<ReadingView>,
    triggering: Seq<Seq<char>>,
    k: int,
)
    requires
        0 <= k < shown_rows(state, readings, triggering).len(),
    ensures
        ({
            let row = shown_rows(state, readings, triggering)[k];
            row.write_generation == generation_of(state.write_generations, row.id)
        }),
        finished(state, readings, triggering).write_generations == state.write_generations,
{
    let rows = listing(state, readings, triggering).rows;
    let generations = state.write_generations;
    let grouped = grouped_rows(rows, generations);
    let shown = shown_rows(state, readings, triggering);
    let row = shown[k];
    lemma_rows_listed(state, readings, any_triggering(state, triggering), triggering);
    lemma_grouped(rows, generations);
    lemma_sorted_members(grouped, by_name_then_id());
    assert(shown.contains(row));
    let m = choose|m: int| 0 <= m < grouped.len() && grouped[m] == row;
    let name = grouped[m].display_name;
    assert(row == row_of(rows, name, generations));
    let own = rows.filter(named(name));
    if own.len() == 1 {
        lemma_filter_members(rows, named(name));
        assert(own.contains(own[0]));
        let i = choose|i: int| 0 <= i < rows.len() && rows[i] == own[0];
        law_rows(state, readings, triggering, i);
    }
}

proof fn lemma_filter_no_duplicates(rows: Seq<SessionView>, p: spec_fn(SessionView) -> bool)
    requires
        rows.no_duplicates(),
    ensures
        rows.filter(p).no_duplicates(),
    decreases rows.len(),
{
    reveal(Seq::filter);
    if rows.len() > 0 {
        let init = rows.drop_last();
        lemma_filter_no_duplicates(init, p);
        lemma_filter_members(init, p);
        let kept = init.filter(p);
        if kept.contains(rows.last()) {
            let k = choose|k: int| 0 <= k < init.len() && init[k] == rows.last();
            assert(rows[k] == rows[rows.len() - 1]);
        }
        let all = rows.filter(p);
        assert forall|i: int, j: int|
            0 <= i < all.len() && 0 <= j < all.len() && i != j implies all[i] != all[j] by {
            if i < kept.len() && j < kept.len() {
                assert(kept[i] != kept[j]);
            } else if i < kept.len() {
                assert(kept.contains(kept[i]));
            } else if j < kept.len() {
                assert(kept.contains(kept[j]));
            }
        }
    }
}

/// Where every row is that of a process, the processes stand in the order of the rows.
proof fn lemma_pids_in_place(rows: Seq<SessionView>)
    requires
        forall|i: int|
            0 <= i < rows.len() ==> process_of_session_id((#[trigger] rows[i]).id) is Some,
    ensures
        pids_of(rows).len() == rows.len(),
        forall|i: int|
            0 <= i < rows.len() ==> process_of_session_id((#[trigger] rows[i]).id) == Some(
                pids_of(rows)[i],
            ),
    decreases rows.len(),
{
    if rows.len() > 0 {
        let init = rows.drop_last();
        assert forall|i: int| 0 <= i < init.len() implies process_of_session_id(
            (#[trigger] init[i]).id,
        ) is Some by {
            assert(init[i] == rows[i]);
        }
        lemma_pids_in_place(init);
        assert forall|i: int| 0 <= i < rows.len() implies process_of_session_id(
            (#[trigger] rows[i]).id,
        ) == Some(pids_of(rows)[i]) by {
            if i < init.len() {
                assert(init[i] == rows[i]);
            }
        }
    }
}

/// Whether each number is larger than those before it.
pub open spec fn ascending(pids: Seq<u32>) -> bool {
    forall|i: int, j: int| 0 <= i < j < pids.len() ==> #[trigger] pids[i] < #[trigger] pids[j]
}

proof fn lemma_member_pids_ascend(rows: Seq<SessionView>, name: Seq<char>)
    requires
        process_rows(rows),
    ensures
        ascending(pids_of(members_named(rows, name))),
{
    broadcast use vstd::seq_lib::group_to_multiset_ensures;

    let own = rows.filter(named(name));
    let members = members_named(rows, name);
    let pids = pids_of(members);
    lemma_members(rows, name);
    law_sorted(own, by_pid());
    assert(rows.no_duplicates());
    lemma_filter_no_duplicates(rows, named(name));
    own.lemma_multiset_has_no_duplicates();
    members.lemma_multiset_has_no_duplicates_conv();
    assert forall|i: int| 0 <= i < members.len() implies process_of_session_id(
        (#[trigger] members[i]).id,
    ) is Some by {
        assert(members.contains(members[i]));
        let k = choose|k: int| 0 <= k < rows.len() && rows[k] == members[i];
        assert(process_of_session_id(rows[k].id) is Some);
    }
    lemma_pids_in_place(members);
    assert forall|i: int, j: int| 0 <= i < j < pids.len() implies #[trigger] pids[i]
        < #[trigger] pids[j] by {
        assert(by_pid()(members[i], members[j]));
        assert(process_of_session_id(members[i].id) == Some(pids[i]));
        assert(process_of_session_id(members[j].id) == Some(pids[j]));
        assert(members.contains(members[i]) && members.contains(members[j]));
        let a = choose|a: int| 0 <= a < rows.len() && rows[a] == members[i];
        let b = choose|b: int| 0 <= b < rows.len() && rows[b] == members[j];
        assert(members[i] != members[j]);
        if a < b {
            assert(process_of_session_id(rows[a].id) != process_of_session_id(rows[b].id));
        } else {
            assert(process_of_session_id(rows[b].id) != process_of_session_id(rows[a].id));
        }
    }
}

/// What sessions are merged into resolves back to them: the id of every row that merging
/// gives stands for exactly the processes of its name, in ascending order.
pub proof fn law_merged_row_resolves_to_its_members(
    state: WindowsView,
    rows: Seq<SessionView>,
    k: int,
)
    requires
        process_rows(rows),
        0 <= k < grouped_rows(rows, state.write_generations).len(),
    ensures
        ({
            let row = grouped_rows(rows, state.write_generations)[k];
            let after = WindowsView {
                session_groups: groups_added(Map::empty(), rows),
                ..state
            };
            &&& member_pids(after, row.id) matches Some(pids)
            &&& ascending(pids)
            &&& forall|pid: u32| #[trigger]
                pids.contains(pid) <==> has_process(rows, pid, row.display_name)
        }),
{
    let generations = state.write_generations;
    let row = grouped_rows(rows, generations)[k];
    let name = row.display_name;
    let after = WindowsView { session_groups: groups_added(Map::empty(), rows), ..state };
    lemma_grouped(rows, generations);
    assert(row == row_of(rows, name, generations));
    assert(has_name(grouped_rows(rows, generations), name));
    assert(has_name(rows, name));
    lemma_members(rows, name);
    lemma_member_pids(rows, name);
    lemma_member_pids_ascend(rows, name);
    let pids = pids_of(members_named(rows, name));
    let own = rows.filter(named(name));
    lemma_filter_members(rows, named(name));
    if own.len() == 1 {
        assert(own.contains(own[0]));
        let i = choose|i: int| 0 <= i < rows.len() && rows[i] == own[0];
        assert(process_of_session_id(rows[i].id) is Some);
        let pid = process_of_session_id(row.id).unwrap();
        lemma_only_groups(Map::empty(), rows, row.id);
        assert(member_pids(after, row.id) == Some(seq![pid]));
        assert forall|p: u32| #[trigger] seq![pid].contains(p) <==> has_process(rows, p, name) by {
            if has_process(rows, p, name) {
                let a = choose|a: int|
                    0 <= a < rows.len() && (#[trigger] rows[a]).display_name == name
                        && process_of_session_id(rows[a].id) == Some(p);
                assert(rows.contains(rows[a]));
                assert(own.contains(rows[a]));
                let b = choose|b: int| 0 <= b < own.len() && own[b] == rows[a];
                assert(own[b] == own[0]);
            }
            assert(seq![pid][0] == pid);
            assert(seq![pid].contains(p) <==> p == pid);
        }
    } else {
        lemma_groups(Map::empty(), rows, name);
        assert(row.id == group_session_id(pids[0]));
        assert(member_pids(after, row.id) == Some(pids));
    }
}

/// A row that is shown stands for exactly the processes of its name, in ascending order:
/// what is done to the row is done to each of them.
pub proof fn law_row_stands_for_its_processes(
    state: WindowsView,
    readings: Seq<ReadingView>,
    triggering: Seq<Seq<char>>,
    k: int,
)
    requires
        distinct_processes(readings),
        0 <= k < shown_rows(state, readings, triggering).len(),
    ensures
        ({
            let row = shown_rows(state, readings, triggering)[k];
            &&& member_pids(finished(state, readings, triggering), row.id) matches Some(pids)
            &&& ascending(pids)
            &&& forall|pid: u32| #[trigger]
                pids.contains(pid) <==> exists|i: int|
                    0 <= i < readings.len() && (#[trigger] readings[i]).raw.pid == pid
                        && readings[i].raw.display_name == row.display_name
        }),
{
    let rows = listing(state, readings, triggering).rows;
    let generations = state.write_generations;
    let grouped = grouped_rows(rows, generations);
    let shown = shown_rows(state, readings, triggering);
    let after = finished(state, readings, triggering);
    let row = shown[k];
    let name = row.display_name;
    lemma_listed_names(state, readings, triggering);
    assert(process_rows(rows)) by {
        assert forall|i: int, j: int| 0 <= i < j < rows.len() implies process_of_session_id(
            (#[trigger] rows[i]).id,
        ) != process_of_session_id((#[trigger] rows[j]).id) by {
            assert(readings[i].raw.pid != readings[j].raw.pid);
        }
    }
    lemma_sorted_members(grouped, by_name_then_id());
    assert(shown.contains(row));
    let m = choose|m: int| 0 <= m < grouped.len() && grouped[m] == row;
    law_merged_row_resolves_to_its_members(
        WindowsView { write_generations: generations, ..after },
        rows,
        m,
    );
    let pids = member_pids(after, row.id).unwrap();
    assert forall|p: u32| #[trigger] pids.contains(p) <==> exists|i: int|
        0 <= i < readings.len() && (#[trigger] readings[i]).raw.pid == p
            && readings[i].raw.display_name == name by {
        assert(pids.contains(p) <==> has_process(rows, p, name));
        if has_process(rows, p, name) {
            let a = choose|a: int|
                0 <= a < rows.len() && (#[trigger] rows[a]).display_name == name
                    && process_of_session_id(rows[a].id) == Some(p);
            assert(readings[a].raw.pid == p);
        }
        if exists|i: int|
            0 <= i < readings.len() && (#[trigger] readings[i]).raw.pid == p
                && readings[i].raw.display_name == name {
            let i = choose|i: int|
                0 <= i < readings.len() && (#[trigger] readings[i]).raw.pid == p
                    && readings[i].raw.display_name == name;
            assert(rows[i].display_name == name);
        }
    }
}

/// The process that a row is of.
pub open spec fn pid_of(row: SessionView) -> u32 {
    process_of_session_id(row.id).unwrap()
}

/// Whether a row is the one of its name with the lowest process id.
pub open spec fn is_lowest(rows: Seq<SessionView>, i: int) -> bool {
    &&& 0 <= i < rows.len()
    &&& forall|j: int|
        0 <= j < rows.len() && (#[trigger] rows[j]).display_name == rows[i].display_name ==> pid_of(
            rows[i],
        ) <= pid_of(rows[j])
}

/// Whether no other row has the name of a row.
pub open spec fn is_alone(rows: Seq<SessionView>, i: int) -> bool {
    &&& 0 <= i < rows.len()
    &&& forall|j: int|
        0 <= j < rows.len() && j != i ==> (#[trigger] rows[j]).display_name != rows[i].display_name
}

proof fn lemma_own(rows: Seq<SessionView>, i: int)
    requires
        process_rows(rows),
        0 <= i < rows.len(),
    ensures
        rows.filter(named(rows[i].display_name)).len() == 1 <==> is_alone(rows, i),
        members_named(rows, rows[i].display_name).contains(rows[i]),
        rows.filter(named(rows[i].display_name)).contains(rows[i]),
{
    let name = rows[i].display_name;
    let own = rows.filter(named(name));
    lemma_filter_members(rows, named(name));
    lemma_members(rows, name);
    assert(rows.contains(rows[i]));
    assert(own.contains(rows[i]));
    if own.len() == 1 && !is_alone(rows, i) {
        let j = choose|j: int|
            0 <= j < rows.len() && j != i && (#[trigger] rows[j]).display_name == name;
        assert(rows.contains(rows[j]));
        assert(own.contains(rows[j]));
        assert(rows[i] == own[0] && rows[j] == own[0]);
        if i < j {
            assert(process_of_session_id(rows[i].id) != process_of_session_id(rows[j].id));
        } else {
            assert(process_of_session_id(rows[j].id) != process_of_session_id(rows[i].id));
        }
    }
    if is_alone(rows, i) && own.len() != 1 {
        assert(rows.no_duplicates());
        lemma_filter_no_duplicates(rows, named(name));
        assert(own.contains(own[0]) && own.contains(own[1]));
        let a = choose|a: int| 0 <= a < rows.len() && rows[a] == own[0];
        let b = choose|b: int| 0 <= b < rows.len() && rows[b] == own[1];
        assert(rows[a].display_name == name && rows[b].display_name == name);
        assert(a == i && b == i);
    }
}

/// The member at a place in the order of the process ids, and where it comes from.
proof fn lemma_member(rows: Seq<SessionView>, name: Seq<char>, m: int) -> (i: int)
    requires
        process_rows(rows),
        0 <= m < members_named(rows, name).len(),
    ensures
        0 <= i < rows.len(),
        rows[i] == members_named(rows, name)[m],
        rows[i].display_name == name,
{
    let members = members_named(rows, name);
    lemma_members(rows, name);
    assert(members.contains(members[m]));
    choose|i: int| 0 <= i < rows.len() && rows[i] == members[m]
}

proof fn lemma_first_is_lowest(rows: Seq<SessionView>, i: int)
    requires
        process_rows(rows),
        is_lowest(rows, i),
    ensures
        members_named(rows, rows[i].display_name)[0] == rows[i],
        pids_of(members_named(rows, rows[i].display_name))[0] == pid_of(rows[i]),
        forall|a: int, b: int|
            0 <= a < b < members_named(rows, rows[i].display_name).len() ==> pid_of(
                #[trigger] members_named(rows, rows[i].display_name)[a],
            ) < pid_of(#[trigger] members_named(rows, rows[i].display_name)[b]),
{
    let name = rows[i].display_name;
    let members = members_named(rows, name);
    let pids = pids_of(members);
    lemma_own(rows, i);
    lemma_member_pids_ascend(rows, name);
    assert forall|m: int| 0 <= m < members.len() implies process_of_session_id(
        (#[trigger] members[m]).id,
    ) is Some by {
        let k = lemma_member(rows, name, m);
        assert(process_of_session_id(rows[k].id) is Some);
    }
    lemma_pids_in_place(members);
    let m = choose|m: int| 0 <= m < members.len() && members[m] == rows[i];
    let k = lemma_member(rows, name, 0);
    assert(pid_of(rows[i]) <= pid_of(rows[k]));
    assert(pids[m] == pid_of(rows[i]) && pids[0] == pid_of(rows[k]));
    if m > 0 {
        assert(pids[0] < pids[m]);
    }
    assert forall|a: int, b: int| 0 <= a < b < members.len() implies pid_of(#[trigger] members[a])
        < pid_of(#[trigger] members[b]) by {
        assert(pids[a] < pids[b]);
    }
}

proof fn lemma_first_icon(rows: Seq<SessionView>, m: int)
    requires
        0 <= m < rows.len(),
        rows[m].icon_png is Some,
        forall|k: int| 0 <= k < m ==> (#[trigger] rows[k]).icon_png is None,
    ensures
        first_icon(rows) == rows[m].icon_png,
    decreases m,
{
    if m > 0 {
        assert(rows[0].icon_png is None);
        let rest = rows.skip(1);
        assert forall|k: int| 0 <= k < m - 1 implies (#[trigger] rest[k]).icon_png is None by {
            assert(rows[k + 1] == rest[k]);
        }
        lemma_first_icon(rest, m - 1);
    }
}

proof fn lemma_no_icon(rows: Seq<SessionView>)
    requires
        forall|k: int| 0 <= k < rows.len() ==> (#[trigger] rows[k]).icon_png is None,
    ensures
        first_icon(rows) is None,
    decreases rows.len(),
{
    if rows.len() > 0 {
        assert(rows[0].icon_png is None);
        let rest = rows.skip(1);
        assert forall|k: int| 0 <= k < rest.len() implies (#[trigger] rest[k]).icon_png is None by {
            assert(rows[k + 1] == rest[k]);
        }
        lemma_no_icon(rest);
    }
}

/// A process that shares its name with no other keeps its row as it is.
pub proof fn law_a_single_row_stays_as_it_is(
    rows: Seq<SessionView>,
    generations: Map<Seq<char>, u64>,
    k: int,
    i: int,
)
    requires
        process_rows(rows),
        0 <= k < grouped_rows(rows, generations).len(),
        is_alone(rows, i),
        rows[i].display_name == grouped_rows(rows, generations)[k].display_name,
    ensures
        grouped_rows(rows, generations)[k] == rows[i],
{
    lemma_grouped(rows, generations);
    lemma_own(rows, i);
    let own = rows.filter(named(rows[i].display_name));
    assert(own.contains(rows[i]));
    assert(own[0] == rows[i]);
}

/// Where several processes share a name, their row takes volume, what is heard, mute,
/// balance and output device from the one with the lowest process id, and is known by that
/// process id; its count of changes is its own. It is active, triggers or is ducked if any of
/// them does so.
pub proof fn law_a_merged_row_stands_for_all(
    rows: Seq<SessionView>,
    generations: Map<Seq<char>, u64>,
    k: int,
    i: int,
)
    requires
        process_rows(rows),
        0 <= k < grouped_rows(rows, generations).len(),
        is_lowest(rows, i),
        !is_alone(rows, i),
        rows[i].display_name == grouped_rows(rows, generations)[k].display_name,
    ensures
        ({
            let row = grouped_rows(rows, generations)[k];
            let first = rows[i];
            &&& row.id == group_session_id(pid_of(first))
            &&& (row.volume, row.effective_volume) == (first.volume, first.effective_volume)
            &&& (row.muted, row.balance) == (first.muted, first.balance)
            &&& row.output_device_id == first.output_device_id
            &&& row.is_active <==> exists|j: int|
                0 <= j < rows.len() && (#[trigger] rows[j]).display_name == row.display_name
                    && rows[j].is_active
            &&& row.is_duck_trigger <==> exists|j: int|
                0 <= j < rows.len() && (#[trigger] rows[j]).display_name == row.display_name
                    && rows[j].is_duck_trigger
            &&& row.is_ducked <==> exists|j: int|
                0 <= j < rows.len() && (#[trigger] rows[j]).display_name == row.display_name
                    && rows[j].is_ducked
            &&& generations.dom().contains(row.id) ==> row.write_generation == generations[row.id]
            &&& !generations.dom().contains(row.id) ==> row.write_generation == 0
        }),
{
    let row = grouped_rows(rows, generations)[k];
    let name = row.display_name;
    let members = members_named(rows, name);
    lemma_grouped(rows, generations);
    lemma_own(rows, i);
    lemma_first_is_lowest(rows, i);
    assert(row == merged_row(members, generations));
    assert forall|j: int| 0 <= j < rows.len() && (#[trigger] rows[j]).display_name == name implies {
        &&& rows[j].is_active ==> row.is_active
        &&& rows[j].is_duck_trigger ==> row.is_duck_trigger
        &&& rows[j].is_ducked ==> row.is_ducked
    } by {
        lemma_own(rows, j);
        let m = choose|m: int| 0 <= m < members.len() && members[m] == rows[j];
        assert(members[m].is_active == rows[j].is_active);
    }
    if row.is_active {
        let m = choose|m: int| 0 <= m < members.len() && (#[trigger] members[m]).is_active;
        let j = lemma_member(rows, name, m);
        assert(rows[j].display_name == name && rows[j].is_active);
    }
    if row.is_duck_trigger {
        let m = choose|m: int| 0 <= m < members.len() && (#[trigger] members[m]).is_duck_trigger;
        let j = lemma_member(rows, name, m);
        assert(rows[j].display_name == name && rows[j].is_duck_trigger);
    }
    if row.is_ducked {
        let m = choose|m: int| 0 <= m < members.len() && (#[trigger] members[m]).is_ducked;
        let j = lemma_member(rows, name, m);
        assert(rows[j].display_name == name && rows[j].is_ducked);
    }
}

/// The icon of a merged row is that of the lowest process that has one, and there is none
/// only if none of them has one.
pub proof fn law_a_merged_row_has_an_icon_if_any_has(
    rows: Seq<SessionView>,
    generations: Map<Seq<char>, u64>,
    k: int,
    i: int,
)
    requires
        process_rows(rows),
        0 <= k < grouped_rows(rows, generations).len(),
        0 <= i < rows.len(),
        rows[i].display_name == grouped_rows(rows, generations)[k].display_name,
        forall|j: int|
            0 <= j < rows.len() && (#[trigger] rows[j]).display_name == rows[i].display_name
                && rows[j].icon_png is Some ==> rows[i].icon_png is Some && pid_of(rows[i])
                <= pid_of(rows[j]),
    ensures
        grouped_rows(rows, generations)[k].icon_png == rows[i].icon_png,
{
    let row = grouped_rows(rows, generations)[k];
    let name = row.display_name;
    let members = members_named(rows, name);
    lemma_grouped(rows, generations);
    lemma_own(rows, i);
    if is_alone(rows, i) {
        law_a_single_row_stays_as_it_is(rows, generations, k, i);
    } else {
        let first = lemma_member(rows, name, 0);
        let m = choose|m: int| 0 <= m < members.len() && members[m] == rows[i];
        assert(is_lowest(rows, first)) by {
            lemma_lowest(rows, name, first);
        }
        lemma_first_is_lowest(rows, first);
        if rows[i].icon_png is Some {
            assert forall|a: int| 0 <= a < m implies (#[trigger] members[a]).icon_png is None by {
                let j = lemma_member(rows, name, a);
                assert(pid_of(members[a]) < pid_of(members[m]));
                assert(rows[j].icon_png is Some ==> pid_of(rows[i]) <= pid_of(rows[j]));
            }
            lemma_first_icon(members, m);
        } else {
            assert forall|a: int| 0 <= a < members.len() implies (
            #[trigger] members[a]).icon_png is None by {
                let j = lemma_member(rows, name, a);
                assert(rows[j].icon_png is Some ==> rows[i].icon_png is Some);
            }
            lemma_no_icon(members);
        }
    }
}

proof fn lemma_lowest(rows: Seq<SessionView>, name: Seq<char>, first: int)
    requires
        process_rows(rows),
        members_named(rows, name).len() > 0,
        0 <= first < rows.len(),
        rows[first] == members_named(rows, name)[0],
        rows[first].display_name == name,
    ensures
        is_lowest(rows, first),
{
    let members = members_named(rows, name);
    let pids = pids_of(members);
    lemma_member_pids_ascend(rows, name);
    assert forall|m: int| 0 <= m < members.len() implies process_of_session_id(
        (#[trigger] members[m]).id,
    ) is Some by {
        let k = lemma_member(rows, name, m);
        assert(process_of_session_id(rows[k].id) is Some);
    }
    lemma_pids_in_place(members);
    assert forall|j: int|
        0 <= j < rows.len() && (#[trigger] rows[j]).display_name == rows[first].display_name implies pid_of(
        rows[first],
    ) <= pid_of(rows[j]) by {
        lemma_own(rows, j);
        let m = choose|m: int| 0 <= m < members.len() && members[m] == rows[j];
        assert(pids[m] == pid_of(rows[j]) && pids[0] == pid_of(rows[first]));
        if m > 0 {
            assert(pids[0] < pids[m]);
        }
    }
}

/// The rows are shown in the order of their names, as in a dictionary, and each is one that
/// merging gave.
pub proof fn law_rows_are_shown_in_dictionary_order(
    state: WindowsView,
    readings: Seq<ReadingView>,
    triggering: Seq<Seq<char>>,
    a: int,
    b: int,
    at: int,
)
    requires
        0 <= a < b < shown_rows(state, readings, triggering).len(),
        agree_before(
            shown_rows(state, readings, triggering)[a].display_name,
            shown_rows(state, readings, triggering)[b].display_name,
            at,
        ),
        ({
            let first = shown_rows(state, readings, triggering)[a].display_name;
            let second = shown_rows(state, readings, triggering)[b].display_name;
            at == first.len() || at == second.len() || first[at] != second[at]
        }),
    ensures
        ({
            let first = shown_rows(state, readings, triggering)[a].display_name;
            let second = shown_rows(state, readings, triggering)[b].display_name;
            at == first.len() || at < second.len() && first[at] < second[at]
        }),
        grouped_rows(listing(state, readings, triggering).rows, state.write_generations).contains(
            shown_rows(state, readings, triggering)[a],
        ),
        shown_rows(state, readings, triggering).len() == grouped_rows(
            listing(state, readings, triggering).rows,
            state.write_generations,
        ).len(),
{
    let shown = shown_rows(state, readings, triggering);
    let grouped = grouped_rows(listing(state, readings, triggering).rows, state.write_generations);
    law_each_name_is_shown_once(state, readings, triggering);
    assert(by_name_then_id()(shown[a], shown[b]));
    assert(shown[a].display_name != shown[b].display_name);
    law_texts_are_in_dictionary_order(shown[a].display_name, shown[b].display_name, at);
    lemma_sorted_members(grouped, by_name_then_id());
    assert(shown.contains(shown[a]));
}

proof fn lemma_groups_are_rows(
    groups: Map<Seq<char>, Seq<u32>>,
    rows: Seq<SessionView>,
    generations: Map<Seq<char>, u64>,
    id: Seq<char>,
)
    requires
        groups_added(groups, rows).dom().contains(id),
        !groups.dom().contains(id),
    ensures
        exists|k: int|
            0 <= k < grouped_rows(rows, generations).len() && (#[trigger] grouped_rows(
                rows,
                generations,
            )[k]).id == id,
    decreases rows.len(),
{
    let name = rows[0].display_name;
    let rest = rows.filter(named_otherwise(name));
    let all = grouped_rows(rows, generations);
    lemma_filter_drops_first(rows, named_otherwise(name));
    let pids = pids_of(members_named(rows, name));
    let own = if rows.filter(named(name)).len() == 1 {
        groups
    } else {
        groups.insert(group_session_id(pids[0]), pids)
    };
    if own.dom().contains(id) {
        assert(all[0].id == id);
    } else {
        lemma_groups_are_rows(own, rest, generations, id);
        let tail = grouped_rows(rest, generations);
        let k = choose|k: int| 0 <= k < tail.len() && (#[trigger] tail[k]).id == id;
        assert(all[k + 1] == tail[k]);
    }
}

/// After a look an id stands for something only if it is that of a row that is shown, or
/// names a process. So the id of a merged row that is gone stands for nothing.
pub proof fn law_merged_rows_that_are_gone_stand_for_nothing(
    state: WindowsView,
    readings: Seq<ReadingView>,
    triggering: Seq<Seq<char>>,
    id: Seq<char>,
)
    requires
        process_of_session_id(id) is None,
        member_pids(finished(state, readings, triggering), id) is Some,
    ensures
        exists|k: int|
            0 <= k < shown_rows(state, readings, triggering).len() && (#[trigger] shown_rows(
                state,
                readings,
                triggering,
            )[k]).id == id,
{
    let rows = listing(state, readings, triggering).rows;
    let grouped = grouped_rows(rows, state.write_generations);
    let shown = shown_rows(state, readings, triggering);
    lemma_groups_are_rows(Map::empty(), rows, state.write_generations, id);
    let k = choose|k: int| 0 <= k < grouped.len() && (#[trigger] grouped[k]).id == id;
    lemma_sorted_members(grouped, by_name_then_id());
    assert(grouped.contains(grouped[k]));
    assert(shown.contains(grouped[k]));
    let m = choose|m: int| 0 <= m < shown.len() && shown[m] == grouped[k];
    assert(shown[m].id == id);
}

} // verus!
