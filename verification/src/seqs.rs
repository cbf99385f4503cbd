//! Facts about sequences and maps.

use vstd::prelude::*;

verus! {

/// A sequence extended by `x` holds `x` and what it held before.
pub proof fn lemma_push_members<A>(s: Seq<A>, x: A)
    ensures
        forall|y: A| #[trigger] s.push(x).contains(y) <==> s.contains(y) || y == x,
{
    assert forall|y: A| #[trigger] s.push(x).contains(y) <==> s.contains(y) || y == x by {
        let t = s.push(x);
        if t.contains(y) {
            let i = choose|i: int| 0 <= i < t.len() && t[i] == y;
            if i < s.len() {
                assert(s[i] == y);
            }
        }
        if s.contains(y) {
            let i = choose|i: int| 0 <= i < s.len() && s[i] == y;
            assert(t[i] == y);
        }
        assert(t[s.len() as int] == x);
    }
}

/// How filtering goes on by one element.
pub proof fn lemma_filter_take<A>(s: Seq<A>, p: spec_fn(A) -> bool, i: int)
    requires
        0 <= i < s.len(),
    ensures
        s.take(i + 1).filter(p) == if p(s[i]) {
            s.take(i).filter(p).push(s[i])
        } else {
            s.take(i).filter(p)
        },
{
    reveal(Seq::filter);
    assert(s.take(i + 1).drop_last() == s.take(i));
}

/// Filtering nothing gives nothing.
pub proof fn lemma_filter_none<A>(s: Seq<A>, p: spec_fn(A) -> bool)
    ensures
        s.take(0).filter(p) == Seq::<A>::empty(),
{
    reveal(Seq::filter);
    assert(s.take(0).filter(p) =~= Seq::<A>::empty());
}

/// A filtered sequence holds exactly the members that pass.
pub proof fn lemma_filter_members<A>(s: Seq<A>, p: spec_fn(A) -> bool)
    ensures
        forall|x: A| #[trigger] s.filter(p).contains(x) <==> s.contains(x) && p(x),
    decreases s.len(),
{
    reveal(Seq::filter);
    if s.len() > 0 {
        let init = s.drop_last();
        lemma_filter_members(init, p);
        lemma_push_members(init, s.last());
        assert(init.push(s.last()) == s);
        if p(s.last()) {
            lemma_push_members(init.filter(p), s.last());
        }
        assert forall|x: A| #[trigger] s.filter(p).contains(x) <==> s.contains(x) && p(x) by {
            assert(init.push(s.last()).contains(x) == s.contains(x));
            assert(init.filter(p).contains(x) == (init.contains(x) && p(x)));
            assert(p(s.last()) ==> (init.filter(p).push(s.last()).contains(x) == s.filter(
                p,
            ).contains(x)));
        }
    }
}

/// Filtering keeps a sequence whose members all pass.
pub proof fn lemma_filter_of_all<A>(s: Seq<A>, p: spec_fn(A) -> bool)
    requires
        forall|i: int| 0 <= i < s.len() ==> p(#[trigger] s[i]),
    ensures
        s.filter(p) == s,
    decreases s.len(),
{
    reveal(Seq::filter);
    if s.len() > 0 {
        let init = s.drop_last();
        assert forall|i: int| 0 <= i < init.len() implies p(#[trigger] init[i]) by {
            assert(p(s[i]));
        }
        lemma_filter_of_all(init, p);
        assert(p(s[s.len() - 1]));
        assert(init.push(s.last()) =~= s);
    } else {
        assert(s.filter(p) =~= s);
    }
}

/// Filtering drops at least the first element where that one does not pass.
pub proof fn lemma_filter_drops_first<A>(s: Seq<A>, p: spec_fn(A) -> bool)
    requires
        s.len() > 0,
        !p(s[0]),
    ensures
        s.filter(p).len() < s.len(),
    decreases s.len(),
{
    reveal(Seq::filter);
    s.drop_last().lemma_filter_len(p);
    if s.len() > 1 {
        lemma_filter_drops_first(s.drop_last(), p);
    }
}

/// Setting a value and then mapping all values, or the other way round.
pub proof fn lemma_map_values_insert<K, V, W>(m: Map<K, V>, f: spec_fn(V) -> W, k: K, v: V)
    ensures
        m.insert(k, v).map_values(f) == m.map_values(f).insert(k, f(v)),
{
    assert(m.insert(k, v).map_values(f) =~= m.map_values(f).insert(k, f(v)));
}

/// Restricting a map and mapping its values, or the other way round.
pub proof fn lemma_map_values_restrict<K, V, W>(m: Map<K, V>, f: spec_fn(V) -> W, keys: Set<K>)
    ensures
        m.restrict(keys).map_values(f) == m.map_values(f).restrict(keys),
{
    assert(m.restrict(keys).map_values(f) =~= m.map_values(f).restrict(keys));
}

} // verus!
