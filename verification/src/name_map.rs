//! A map from text to values.

use vstd::prelude::*;

use crate::seqs::{lemma_filter_members, lemma_push_members};
use crate::text::same_text;

verus! {

/// A small map keyed by text. Every key stands in it once.
#[derive(Debug)]
pub struct NameMap<V> {
    entries: Vec<(String, V)>,
}

spec fn distinct<V>(entries: Seq<(String, V)>) -> bool {
    forall|i: int, j: int|
        0 <= i < j < entries.len() ==> (#[trigger] entries[i]).0@ != (#[trigger] entries[j]).0@
}

spec fn holds<V>(entries: Seq<(String, V)>, key: Seq<char>, i: int) -> bool {
    0 <= i < entries.len() && entries[i].0@ == key
}

spec fn index_of<V>(entries: Seq<(String, V)>, key: Seq<char>) -> int {
    choose|i: int| holds(entries, key, i)
}

spec fn as_map<V>(entries: Seq<(String, V)>) -> Map<Seq<char>, V> {
    Map::new(
        |key: Seq<char>| exists|i: int| holds(entries, key, i),
        |key: Seq<char>| entries[index_of(entries, key)].1,
    )
}

proof fn lemma_entry<V>(entries: Seq<(String, V)>, i: int)
    requires
        distinct(entries),
        0 <= i < entries.len(),
    ensures
        as_map(entries).dom().contains(entries[i].0@),
        as_map(entries)[entries[i].0@] == entries[i].1,
{
    let key = entries[i].0@;
    assert(holds(entries, key, i));
    let j = index_of(entries, key);
    assert(holds(entries, key, j));
    assert(i == j);
}

proof fn lemma_filter_distinct<V>(entries: Seq<(String, V)>, p: spec_fn((String, V)) -> bool)
    requires
        distinct(entries),
    ensures
        distinct(entries.filter(p)),
    decreases entries.len(),
{
    reveal(Seq::filter);
    if entries.len() > 0 {
        let init = entries.drop_last();
        let last = entries.last();
        lemma_filter_distinct(init, p);
        lemma_filter_members(init, p);
        let kept = init.filter(p);
        if p(last) {
            let all = kept.push(last);
            assert forall|i: int, j: int| 0 <= i < j < all.len() implies (#[trigger] all[i]).0@ != (
            #[trigger] all[j]).0@ by {
                if j == kept.len() {
                    assert(kept.contains(kept[i]));
                    assert(init.contains(kept[i]));
                    let m = choose|m: int| 0 <= m < init.len() && init[m] == kept[i];
                    assert(entries[m].0@ != entries[entries.len() - 1].0@);
                }
            }
        }
    }
}

/// The texts of a list of strings.
pub open spec fn texts(names: Seq<String>) -> Seq<Seq<char>> {
    names.map_values(|n: String| n@)
}

/// The names as a set.
pub open spec fn name_set(names: Seq<Seq<char>>) -> Set<Seq<char>> {
    Set::new(|name: Seq<char>| names.contains(name))
}

/// Whether `name` is one of `names`.
pub fn listed(names: &Vec<String>, name: &str) -> (yes: bool)
    ensures
        yes == texts(names@).contains(name@),
{
    let mut i: usize = 0;
    while i < names.len()
        invariant
            i <= names@.len(),
            forall|k: int| 0 <= k < i ==> (#[trigger] names@[k])@ != name@,
        decreases names@.len() - i,
    {
        if same_text(&names[i], name) {
            assert(texts(names@)[i as int] == name@);
            return true;
        }
        i += 1;
    }
    proof {
        if texts(names@).contains(name@) {
            let k = choose|k: int| 0 <= k < texts(names@).len() && texts(names@)[k] == name@;
            assert(names@[k]@ == name@);
        }
    }
    false
}

impl<V> View for NameMap<V> {
    type V = Map<Seq<char>, V>;

    closed spec fn view(&self) -> Map<Seq<char>, V> {
        as_map(self.entries@)
    }
}

impl<V> NameMap<V> {
    #[verifier::type_invariant]
    spec fn well_formed(self) -> bool {
        distinct(self.entries@)
    }

    /// The keys, in the order in which they were first inserted.
    pub closed spec fn keys(&self) -> Seq<Seq<char>> {
        self.entries@.map_values(|e: (String, V)| e.0@)
    }

    pub fn new() -> (map: Self)
        ensures
            map@ == Map::<Seq<char>, V>::empty(),
            map.keys() == Seq::<Seq<char>>::empty(),
    {
        let map = NameMap { entries: Vec::new() };
        assert(map@ =~= Map::<Seq<char>, V>::empty());
        map
    }

    fn position(&self, key: &str) -> (found: Option<usize>)
        ensures
            match found {
                Some(i) => holds(self.entries@, key@, i as int),
                None => !self@.dom().contains(key@),
            },
    {
        let mut i: usize = 0;
        while i < self.entries.len()
            invariant
                i <= self.entries@.len(),
                forall|k: int| 0 <= k < i ==> !holds(self.entries@, key@, k),
            decreases self.entries@.len() - i,
        {
            if same_text(&self.entries[i].0, key) {
                return Some(i);
            }
            i += 1;
        }
        None
    }

    /// The value of `key`.
    pub fn get(&self, key: &str) -> (value: Option<&V>)
        ensures
            match value {
                Some(v) => self@.dom().contains(key@) && self@[key@] == *v,
                None => !self@.dom().contains(key@),
            },
    {
        proof {
            use_type_invariant(self);
        }
        match self.position(key) {
            Some(i) => {
                proof {
                    lemma_entry(self.entries@, i as int);
                }
                Some(&self.entries[i].1)
            },
            None => None,
        }
    }

    pub fn contains(&self, key: &str) -> (yes: bool)
        ensures
            yes == self@.dom().contains(key@),
    {
        self.get(key).is_some()
    }

    /// Sets the value of `key`.
    pub fn insert(&mut self, key: &str, value: V)
        ensures
            final(self)@ == old(self)@.insert(key@, value),
    {
        proof {
            use_type_invariant(&*self);
        }
        let found = self.position(key);
        let mut entries: Vec<(String, V)> = Vec::new();
        std::mem::swap(&mut entries, &mut self.entries);
        let ghost before = entries@;
        match found {
            Some(i) => {
                entries.set(i, (key.to_owned(), value));
                proof {
                    let after = entries@;
                    assert(distinct(after));
                    assert forall|k: Seq<char>| as_map(after).dom().contains(k) == as_map(
                        before,
                    ).insert(key@, value).dom().contains(k) by {
                        if exists|j: int| holds(after, k, j) {
                            let j = choose|j: int| holds(after, k, j);
                            assert(j == i || holds(before, k, j));
                        }
                        if exists|j: int| holds(before, k, j) {
                            let j = choose|j: int| holds(before, k, j);
                            assert(holds(after, k, j));
                        }
                        assert(holds(after, key@, i as int));
                    }
                    assert forall|k: Seq<char>| as_map(after).dom().contains(k) implies as_map(
                        after,
                    )[k] == as_map(before).insert(key@, value)[k] by {
                        let j = choose|j: int| holds(after, k, j);
                        lemma_entry(after, j);
                        lemma_entry(before, j);
                    }
                    assert(as_map(after) =~= as_map(before).insert(key@, value));
                }
            },
            None => {
                entries.push((key.to_owned(), value));
                proof {
                    let after = entries@;
                    let n = before.len() as int;
                    assert forall|i: int, j: int| 0 <= i < j < after.len() implies (
                    #[trigger] after[i]).0@ != (#[trigger] after[j]).0@ by {
                        if j == n {
                            lemma_entry(before, i);
                        }
                    }
                    assert forall|k: Seq<char>| as_map(after).dom().contains(k) == as_map(
                        before,
                    ).insert(key@, value).dom().contains(k) by {
                        if exists|j: int| holds(after, k, j) {
                            let j = choose|j: int| holds(after, k, j);
                            assert(j == n || holds(before, k, j));
                        }
                        if exists|j: int| holds(before, k, j) {
                            let j = choose|j: int| holds(before, k, j);
                            assert(holds(after, k, j));
                        }
                        assert(holds(after, key@, n));
                    }
                    assert forall|k: Seq<char>| as_map(after).dom().contains(k) implies as_map(
                        after,
                    )[k] == as_map(before).insert(key@, value)[k] by {
                        let j = choose|j: int| holds(after, k, j);
                        lemma_entry(after, j);
                        if j < n {
                            lemma_entry(before, j);
                        }
                    }
                    assert(as_map(after) =~= as_map(before).insert(key@, value));
                }
            },
        }
        self.entries = entries;
    }

    fn filter_names(&mut self, names: &Vec<String>, keep: bool)
        ensures
            final(self)@ == old(self)@.restrict(
                Set::new(|k: Seq<char>| texts(names@).contains(k) == keep),
            ),
    {
        proof {
            use_type_invariant(&*self);
        }
        let mut entries: Vec<(String, V)> = Vec::new();
        std::mem::swap(&mut entries, &mut self.entries);
        let ghost before = entries@;
        let ghost p = |e: (String, V)| texts(names@).contains(e.0@) == keep;
        let mut kept: Vec<(String, V)> = Vec::new();
        let ghost mut done: int = 0;
        proof {
            reveal(Seq::filter);
            assert(before.take(0).filter(p) =~= Seq::empty());
        }
        while entries.len() > 0
            invariant
                0 <= done <= before.len(),
                entries@ == before.skip(done),
                p == (|e: (String, V)| texts(names@).contains(e.0@) == keep),
                kept@ == before.take(done).filter(p),
            decreases entries@.len(),
        {
            let entry = entries.remove(0);
            proof {
                reveal(Seq::filter);
                assert(entry == before[done]);
                assert(before.take(done + 1).drop_last() == before.take(done));
                assert(before.take(done + 1).last() == entry);
                done = done + 1;
            }
            if listed(names, &entry.0) == keep {
                kept.push(entry);
            }
        }
        proof {
            assert(before.take(done) == before);
            lemma_filter_distinct(before, p);
            lemma_filter_members(before, p);
            let after = kept@;
            let wanted = as_map(before).restrict(
                Set::new(|k: Seq<char>| texts(names@).contains(k) == keep),
            );
            assert forall|k: Seq<char>| as_map(after).dom().contains(k) == wanted.dom().contains(
                k,
            ) by {
                if exists|j: int| holds(after, k, j) {
                    let j = choose|j: int| holds(after, k, j);
                    assert(after.contains(after[j]));
                    assert(before.contains(after[j]));
                    let m = choose|m: int| 0 <= m < before.len() && before[m] == after[j];
                    assert(holds(before, k, m));
                }
                if wanted.dom().contains(k) {
                    let j = choose|j: int| holds(before, k, j);
                    assert(before.contains(before[j]));
                    assert(after.contains(before[j]));
                    let m = choose|m: int| 0 <= m < after.len() && after[m] == before[j];
                    assert(holds(after, k, m));
                }
            }
            assert forall|k: Seq<char>| as_map(after).dom().contains(k) implies as_map(after)[k]
                == wanted[k] by {
                let j = choose|j: int| holds(after, k, j);
                lemma_entry(after, j);
                assert(after.contains(after[j]));
                assert(before.contains(after[j]));
                let m = choose|m: int| 0 <= m < before.len() && before[m] == after[j];
                lemma_entry(before, m);
            }
            assert(as_map(after) =~= wanted);
        }
        self.entries = kept;
    }

    /// Drops every key that is not one of `names`.
    pub fn keep_only(&mut self, names: &Vec<String>)
        ensures
            final(self)@ == old(self)@.restrict(name_set(texts(names@))),
    {
        self.filter_names(names, true);
        assert(self@ =~= old(self)@.restrict(name_set(texts(names@))));
    }

    /// Drops `key`.
    pub fn remove(&mut self, key: &str)
        ensures
            final(self)@ == old(self)@.remove(key@),
    {
        let names: Vec<String> = vec![key.to_owned()];
        self.filter_names(&names, false);
        proof {
            assert(texts(names@)[0] == key@);
            assert forall|k: Seq<char>| texts(names@).contains(k) == (k == key@) by {
                if texts(names@).contains(k) {
                    let i = choose|i: int| 0 <= i < texts(names@).len() && texts(names@)[i] == k;
                    assert(i == 0);
                }
            }
            assert(self@ =~= old(self)@.remove(key@));
        }
    }

    /// How many keys there are; `keys` lists each once.
    pub fn len(&self) -> (n: usize)
        ensures
            n == self.keys().len(),
            self.keys().no_duplicates(),
            forall|k: Seq<char>| self.keys().contains(k) <==> self@.dom().contains(k),
    {
        proof {
            use_type_invariant(self);
            let entries = self.entries@;
            let keys = self.keys();
            assert forall|k: Seq<char>| keys.contains(k) <==> self@.dom().contains(k) by {
                if keys.contains(k) {
                    let i = choose|i: int| 0 <= i < keys.len() && keys[i] == k;
                    assert(holds(entries, k, i));
                }
                if self@.dom().contains(k) {
                    let i = choose|i: int| holds(entries, k, i);
                    assert(keys[i] == k);
                }
            }
        }
        self.entries.len()
    }

    pub fn key_at(&self, i: usize) -> (key: &String)
        requires
            i < self.keys().len(),
        ensures
            key@ == self.keys()[i as int],
            self@.dom().contains(key@),
    {
        proof {
            use_type_invariant(self);
            lemma_entry(self.entries@, i as int);
        }
        &self.entries[i].0
    }

    pub fn value_at(&self, i: usize) -> (value: &V)
        requires
            i < self.keys().len(),
        ensures
            *value == self@[self.keys()[i as int]],
    {
        proof {
            use_type_invariant(self);
            lemma_entry(self.entries@, i as int);
        }
        &self.entries[i].1
    }
}

impl<V: Copy> NameMap<V> {
    /// A copy of the map.
    pub fn duplicate(&self) -> (copy: NameMap<V>)
        ensures
            copy@ == self@,
    {
        let mut copy: NameMap<V> = NameMap::new();
        let n: usize = self.len();
        let ghost keys = self.keys();
        let mut i: usize = 0;
        while i < n
            invariant
                i <= n == keys.len(),
                keys == self.keys(),
                forall|k: Seq<char>| keys.contains(k) <==> self@.dom().contains(k),
                forall|k: Seq<char>|
                    #[trigger] copy@.dom().contains(k) <==> keys.take(i as int).contains(k),
                forall|k: Seq<char>|
                    #![trigger copy@[k]]
                    copy@.dom().contains(k) ==> copy@[k] == self@[k],
            decreases n - i,
        {
            proof {
                assert(keys.take(i + 1) =~= keys.take(i as int).push(keys[i as int]));
                lemma_push_members(keys.take(i as int), keys[i as int]);
            }
            copy.insert(self.key_at(i), *self.value_at(i));
            i += 1;
        }
        assert(keys.take(i as int) == keys);
        assert(copy@ =~= self@);
        copy
    }
}

} // verus!
