//! Stable sorting.

use vstd::prelude::*;

use crate::session::{session_views, AppSession, SessionView};
use crate::text::{
    chars_of, lemma_text_le_antisymmetric, lemma_text_le_total, lemma_text_le_transitive, same_text,
    text_at_most, text_le,
};

verus! {

/// A sorted sequence with `x` put in behind everything that may stand before it.
pub open spec fn insert_sorted<A>(s: Seq<A>, x: A, le: spec_fn(A, A) -> bool) -> Seq<A>
    decreases s.len(),
{
    if s.len() == 0 || le(s.last(), x) {
        s.push(x)
    } else {
        insert_sorted(s.drop_last(), x, le).push(s.last())
    }
}

/// The elements of `s` in the order `le`; equal ones keep the order that they had.
pub open spec fn sorted<A>(s: Seq<A>, le: spec_fn(A, A) -> bool) -> Seq<A>
    decreases s.len(),
{
    if s.len() == 0 {
        s
    } else {
        insert_sorted(sorted(s.drop_last(), le), s.last(), le)
    }
}

/// An order in which any two elements can be compared.
pub open spec fn total_order<A>(le: spec_fn(A, A) -> bool) -> bool {
    &&& forall|a: A, b: A| #[trigger] le(a, b) || le(b, a)
    &&& forall|a: A, b: A, c: A| #[trigger] le(a, b) && #[trigger] le(b, c) ==> le(a, c)
}

pub open spec fn in_order<A>(s: Seq<A>, le: spec_fn(A, A) -> bool) -> bool {
    forall|i: int, j: int| 0 <= i < j < s.len() ==> le(#[trigger] s[i], #[trigger] s[j])
}

proof fn lemma_insert_sorted<A>(s: Seq<A>, x: A, le: spec_fn(A, A) -> bool)
    requires
        total_order(le),
        in_order(s, le),
    ensures
        in_order(insert_sorted(s, x, le), le),
        insert_sorted(s, x, le).to_multiset() == s.to_multiset().insert(x),
        insert_sorted(s, x, le).len() == s.len() + 1,
        forall|y: A|
            #[trigger] insert_sorted(s, x, le).contains(y) ==> s.contains(y) || y == x,
    decreases s.len(),
{
    broadcast use vstd::seq_lib::group_to_multiset_ensures;

    let t = insert_sorted(s, x, le);
    if s.len() == 0 || le(s.last(), x) {
        assert forall|i: int, j: int| 0 <= i < j < t.len() implies le(
            #[trigger] t[i],
            #[trigger] t[j],
        ) by {
            if j == s.len() && i < s.len() - 1 {
                assert(le(s[i], s[s.len() - 1]));
            }
        }
        assert forall|y: A| #[trigger] t.contains(y) implies s.contains(y) || y == x by {
            let i = choose|i: int| 0 <= i < t.len() && t[i] == y;
            if i < s.len() {
                assert(s[i] == y);
            }
        }
    } else {
        let init = s.drop_last();
        let u = insert_sorted(init, x, le);
        lemma_insert_sorted(init, x, le);
        assert(le(x, s.last()));
        assert forall|i: int, j: int| 0 <= i < j < t.len() implies le(
            #[trigger] t[i],
            #[trigger] t[j],
        ) by {
            if j == u.len() {
                assert(u.contains(u[i]));
                if u[i] != x {
                    let k = choose|k: int| 0 <= k < init.len() && init[k] == u[i];
                    assert(le(s[k], s[s.len() - 1]));
                }
            }
        }
        assert(init.push(s.last()) == s);
        assert(t.to_multiset() =~= s.to_multiset().insert(x));
        assert forall|y: A| #[trigger] t.contains(y) implies s.contains(y) || y == x by {
            let i = choose|i: int| 0 <= i < t.len() && t[i] == y;
            if i < u.len() {
                assert(u[i] == y);
                assert(u.contains(y));
                if y != x {
                    let k = choose|k: int| 0 <= k < init.len() && init[k] == y;
                    assert(s[k] == y);
                }
            } else {
                assert(s[s.len() - 1] == y);
            }
        }
    }
}

/// Sorting puts elements in order and neither loses, adds nor repeats any.
pub proof fn law_sorted<A>(s: Seq<A>, le: spec_fn(A, A) -> bool)
    requires
        total_order(le),
    ensures
        in_order(sorted(s, le), le),
        sorted(s, le).to_multiset() == s.to_multiset(),
    decreases s.len(),
{
    broadcast use vstd::seq_lib::group_to_multiset_ensures;

    if s.len() > 0 {
        let init = s.drop_last();
        law_sorted(init, le);
        lemma_insert_sorted(sorted(init, le), s.last(), le);
        assert(init.push(s.last()) == s);
    }
}

/// Where the scan from the end stops, `x` belongs.
pub proof fn lemma_insert_position<A>(s: Seq<A>, x: A, le: spec_fn(A, A) -> bool, p: int)
    requires
        0 <= p <= s.len(),
        forall|k: int| p <= k < s.len() ==> !le(#[trigger] s[k], x),
        p == 0 || le(s[p - 1], x),
    ensures
        insert_sorted(s, x, le) == s.insert(p, x),
    decreases s.len(),
{
    if p == s.len() {
        if s.len() > 0 {
            assert(le(s.last(), x));
        }
        assert(s.insert(p, x) =~= s.push(x));
    } else {
        assert(!le(s[s.len() - 1], x));
        lemma_insert_position(s.drop_last(), x, le, p);
        assert(s.insert(p, x) =~= s.drop_last().insert(p, x).push(s.last()));
    }
}

/// By display name, then by id.
pub open spec fn by_name_then_id() -> spec_fn(SessionView, SessionView) -> bool {
    |a: SessionView, b: SessionView|
        if a.display_name == b.display_name {
            text_le(a.id, b.id)
        } else {
            text_le(a.display_name, b.display_name)
        }
}

/// Sessions can always be compared by display name and id.
pub proof fn lemma_by_name_then_id_is_total()
    ensures
        total_order(by_name_then_id()),
{
    let le = by_name_then_id();
    assert forall|a: SessionView, b: SessionView| #[trigger] le(a, b) || le(b, a) by {
        lemma_text_le_total(a.id, b.id);
        lemma_text_le_total(a.display_name, b.display_name);
    }
    assert forall|a: SessionView, b: SessionView, c: SessionView| #[trigger]
        le(a, b) && #[trigger] le(b, c) implies le(a, c) by {
        if a.display_name == b.display_name && b.display_name == c.display_name {
            lemma_text_le_transitive(a.id, b.id, c.id);
        } else if a.display_name != b.display_name && b.display_name != c.display_name {
            lemma_text_le_transitive(a.display_name, b.display_name, c.display_name);
            if a.display_name == c.display_name {
                lemma_text_le_antisymmetric(a.display_name, b.display_name);
            }
        }
    }
}

fn session_at_most(a: &AppSession, b: &AppSession) -> (le: bool)
    ensures
        le == by_name_then_id()(a@, b@),
{
    if same_text(&a.display_name, &b.display_name) {
        text_at_most(&chars_of(&a.id), &chars_of(&b.id))
    } else {
        text_at_most(&chars_of(&a.display_name), &chars_of(&b.display_name))
    }
}

/// Sorts sessions by display name, then by id.
pub fn sort_sessions(sessions: Vec<AppSession>) -> (result: Vec<AppSession>)
    ensures
        session_views(result@) == sorted(session_views(sessions@), by_name_then_id()),
{
    let ghost all = session_views(sessions@);
    let ghost le = by_name_then_id();
    let mut rest = sessions;
    let mut result: Vec<AppSession> = Vec::new();
    let ghost mut done: int = 0;
    assert(all.skip(0) == all);
    assert(session_views(result@) =~= sorted(all.take(0), le));
    while rest.len() > 0
        invariant
            0 <= done <= all.len(),
            le == by_name_then_id(),
            session_views(rest@) == all.skip(done),
            session_views(result@) == sorted(all.take(done), le),
        decreases rest@.len(),
    {
        let ghost rest_before = rest@;
        let ghost placed = session_views(result@);
        let ghost result_before = result@;
        let x = rest.remove(0);
        let mut p: usize = result.len();
        while p > 0 && !session_at_most(&result[p - 1], &x)
            invariant
                p <= result@.len(),
                le == by_name_then_id(),
                placed == session_views(result@),
                forall|k: int| p <= k < placed.len() ==> !le(#[trigger] placed[k], x@),
            decreases p,
        {
            p -= 1;
        }
        result.insert(p, x);
        proof {
            assert(session_views(rest_before)[0] == x@);
            assert(session_views(rest_before).len() > 0);
            assert(all.skip(done)[0] == all[done]);
            assert(session_views(rest@) =~= session_views(rest_before).skip(1));
            assert(all.skip(done).skip(1) == all.skip(done + 1));
            lemma_insert_position(placed, x@, le, p as int);
            assert(session_views(result@) =~= placed.insert(p as int, x@));
            assert(all.take(done + 1).drop_last() == all.take(done));
            assert(all.take(done + 1).last() == x@);
            done = done + 1;
        }
    }
    assert(session_views(rest@).len() == 0);
    assert(all.take(done) == all);
    result
}

/// The elements that are as good as `x` in the order `le`.
pub open spec fn like<A>(x: A, le: spec_fn(A, A) -> bool) -> spec_fn(A) -> bool {
    |y: A| le(x, y) && le(y, x)
}

proof fn lemma_filter_push<A>(s: Seq<A>, x: A, p: spec_fn(A) -> bool)
    ensures
        s.push(x).filter(p) == if p(x) {
            s.filter(p).push(x)
        } else {
            s.filter(p)
        },
{
    reveal(Seq::filter);
    assert(s.push(x).drop_last() =~= s);
}

proof fn lemma_insert_is_stable<A>(s: Seq<A>, x: A, le: spec_fn(A, A) -> bool, z: A)
    requires
        total_order(le),
    ensures
        insert_sorted(s, x, le).filter(like(z, le)) == s.push(x).filter(like(z, le)),
    decreases s.len(),
{
    let p = like(z, le);
    lemma_filter_push(s, x, p);
    if s.len() > 0 && !le(s.last(), x) {
        let init = s.drop_last();
        let last = s.last();
        let inner = insert_sorted(init, x, le);
        lemma_insert_is_stable(init, x, le, z);
        lemma_filter_push(inner, last, p);
        lemma_filter_push(init, x, p);
        lemma_filter_push(init, last, p);
        assert(init.push(last) =~= s);
        assert(!(p(x) && p(last))) by {
            if p(x) && p(last) {
                assert(le(last, z) && le(z, x));
            }
        }
    }
}

/// Sorting keeps the order of elements that are as good as each other.
pub proof fn law_sorting_is_stable<A>(s: Seq<A>, le: spec_fn(A, A) -> bool, z: A)
    requires
        total_order(le),
    ensures
        sorted(s, le).filter(like(z, le)) == s.filter(like(z, le)),
    decreases s.len(),
{
    if s.len() > 0 {
        let init = s.drop_last();
        let p = like(z, le);
        law_sorting_is_stable(init, le, z);
        lemma_insert_is_stable(sorted(init, le), s.last(), le, z);
        lemma_filter_push(sorted(init, le), s.last(), p);
        lemma_filter_push(init, s.last(), p);
        assert(init.push(s.last()) =~= s);
    }
}

} // verus!
