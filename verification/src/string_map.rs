//! A map keyed by strings.
use crate::text::same_text;
use vstd::prelude::*;

verus! {

/// A map from strings to values: every key occurs once.
#[derive(Debug)]
pub struct StringMap<T> {
    entries: Vec<(String, T)>,
}

impl<T> StringMap<T> {
    /// No two entries have the same key.
    #[verifier::type_invariant]
    pub closed spec fn keys_are_distinct(self) -> bool {
        distinct_keys(self.entries@)
    }

    /// The entries of the map.
    pub closed spec fn listing(self) -> Seq<(String, T)> {
        self.entries@
    }
}

/// No two of the entries have the same key.
pub open spec fn distinct_keys<T>(entries: Seq<(String, T)>) -> bool {
    forall|i: int, j: int|
        0 <= i < j < entries.len() ==> (#[trigger] entries[i]).0@ != (#[trigger] entries[j]).0@
}

/// One of the entries has the key `k`.
pub open spec fn has_key<T>(entries: Seq<(String, T)>, k: Seq<char>) -> bool {
    exists|i: int| 0 <= i < entries.len() && (#[trigger] entries[i]).0@ == k
}

/// The value that goes with the key `k`.
pub open spec fn value_of<T: View>(entries: Seq<(String, T)>, k: Seq<char>) -> T::V {
    let i = choose|i: int| 0 <= i < entries.len() && (#[trigger] entries[i]).0@ == k;
    entries[i].1@
}

/// The map that the entries make up.
pub open spec fn entry_map<T: View>(entries: Seq<(String, T)>) -> Map<Seq<char>, T::V> {
    Map::new(|k: Seq<char>| has_key(entries, k), |k: Seq<char>| value_of(entries, k))
}

impl<T: View> View for StringMap<T> {
    type V = Map<Seq<char>, T::V>;

    open spec fn view(&self) -> Map<Seq<char>, T::V> {
        entry_map(self.listing())
    }
}

/// With distinct keys, each entry's key leads to that entry's value.
proof fn lemma_entry<T: View>(entries: Seq<(String, T)>, i: int)
    requires
        distinct_keys(entries),
        0 <= i < entries.len(),
    ensures
        entry_map(entries).contains_key(entries[i].0@),
        entry_map(entries)[entries[i].0@] == entries[i].1@,
{
    let k = entries[i].0@;
    assert(has_key(entries, k));
    let j = choose|j: int| 0 <= j < entries.len() && (#[trigger] entries[j]).0@ == k;
    assert(i == j);
}

impl<T: View> StringMap<T> {
    /// The empty map.
    pub fn new() -> (m: Self)
        ensures
            m@ == Map::<Seq<char>, T::V>::empty(),
    {
        let m = StringMap { entries: Vec::new() };
        assert(m@ =~= Map::<Seq<char>, T::V>::empty());
        m
    }

    /// The place of the entry with the key `key`, or how many entries there are.
    fn position(entries: &Vec<(String, T)>, key: &str) -> (p: usize)
        ensures
            p <= entries@.len(),
            p < entries@.len() ==> entries@[p as int].0@ == key@,
            p == entries@.len() ==> !has_key(entries@, key@),
    {
        let mut i: usize = 0;
        while i < entries.len()
            invariant
                i <= entries@.len(),
                forall|j: int| 0 <= j < i ==> (#[trigger] entries@[j]).0@ != key@,
            decreases entries@.len() - i,
        {
            if same_text(entries[i].0.as_str(), key) {
                return i;
            }
            i += 1;
        }
        i
    }

    /// The value that `key` leads to, if any.
    pub fn get(&self, key: &str) -> (v: Option<&T>)
        ensures
            v is Some <==> self@.contains_key(key@),
            v matches Some(t) ==> t@ == self@[key@],
    {
        proof {
            use_type_invariant(self);
        }
        let p = Self::position(&self.entries, key);
        if p < self.entries.len() {
            proof {
                lemma_entry(self.entries@, p as int);
            }
            Some(&self.entries[p].1)
        } else {
            None
        }
    }

    /// Makes `key` lead to `value`, whatever it led to before.
    pub fn insert(&mut self, key: String, value: T)
        ensures
            final(self)@ == old(self)@.insert(key@, value@),
    {
        proof {
            use_type_invariant(&*self);
        }
        let ghost before = self.entries@;
        let ghost k = key@;
        let ghost v = value@;
        let mut entries: Vec<(String, T)> = Vec::new();
        std::mem::swap(&mut entries, &mut self.entries);
        let p = Self::position(&entries, key.as_str());
        if p < entries.len() {
            entries.set(p, (key, value));
        } else {
            entries.push((key, value));
        }
        proof {
            assert(distinct_keys(entries@));
            assert forall|x: Seq<char>| #[trigger] has_key(entries@, x) <==> has_key(before, x) || x == k by {
                if has_key(before, x) {
                    let i = choose|i: int| 0 <= i < before.len() && (#[trigger] before[i]).0@ == x;
                    assert(entries@[i].0@ == x);
                }
                if x == k {
                    assert(entries@[p as int].0@ == x);
                }
                if has_key(entries@, x) {
                    let i = choose|i: int|
                        0 <= i < entries@.len() && (#[trigger] entries@[i]).0@ == x;
                    if i != p {
                        assert(before[i].0@ == x);
                    }
                }
            }
            assert forall|x: Seq<char>| #[trigger] has_key(entries@, x) implies value_of(
                entries@,
                x,
            ) == (if x == k {
                v
            } else {
                value_of(before, x)
            }) by {
                let i = choose|i: int| 0 <= i < entries@.len() && (#[trigger] entries@[i]).0@ == x;
                lemma_entry(entries@, i);
                if i != p {
                    assert(before[i] == entries@[i]);
                    lemma_entry(before, i);
                }
            }
            assert(entry_map(entries@) =~= entry_map(before).insert(k, v));
        }
        self.entries = entries;
    }

    /// The entries of the map: each key once, with what it leads to.
    pub fn entries(&self) -> (r: &Vec<(String, T)>)
        ensures
            r@ == self.listing(),
            distinct_keys(r@),
            forall|i: int|
                0 <= i < r@.len() ==> self@.contains_key((#[trigger] r@[i]).0@) && self@[r@[i].0@]
                    == r@[i].1@,
            forall|k: Seq<char>| #[trigger]
                self@.contains_key(k) ==> exists|i: int|
                    0 <= i < r@.len() && (#[trigger] r@[i]).0@ == k,
    {
        proof {
            use_type_invariant(self);
            assert forall|i: int| 0 <= i < self.entries@.len() implies self@.contains_key(
                (#[trigger] self.entries@[i]).0@,
            ) && self@[self.entries@[i].0@] == self.entries@[i].1@ by {
                lemma_entry(self.entries@, i);
            }
            assert forall|k: Seq<char>| #[trigger] self@.contains_key(k) implies exists|i: int|
                0 <= i < self.entries@.len() && (#[trigger] self.entries@[i]).0@ == k by {
                assert(has_key(self.entries@, k));
            }
        }
        &self.entries
    }
}

impl<T: Clone> Clone for StringMap<T> {
    /// A copy of the map: the same keys, each with a clone of what it leads to.
    fn clone(&self) -> (m: Self)
        ensures
            m.listing().len() == self.listing().len(),
            forall|i: int|
                #![trigger m.listing()[i]]
                0 <= i < m.listing().len() ==> m.listing()[i].0 == self.listing()[i].0 && cloned::<
                    T,
                >(self.listing()[i].1, m.listing()[i].1),
    {
        proof {
            use_type_invariant(self);
        }
        let mut entries: Vec<(String, T)> = Vec::new();
        let mut i: usize = 0;
        while i < self.entries.len()
            invariant
                i == entries@.len(),
                i <= self.entries@.len(),
                forall|j: int|
                    #![trigger entries@[j]]
                    0 <= j < i ==> entries@[j].0 == self.entries@[j].0 && cloned::<T>(
                        self.entries@[j].1,
                        entries@[j].1,
                    ),
            decreases self.entries@.len() - i,
        {
            let e = &self.entries[i];
            entries.push((e.0.clone(), e.1.clone()));
            i += 1;
        }
        assert forall|x: int, y: int| 0 <= x < y < entries@.len() implies (
        #[trigger] entries@[x]).0@ != (#[trigger] entries@[y]).0@ by {
            assert(self.entries@[x].0@ != self.entries@[y].0@);
        }
        StringMap { entries }
    }
}

} // verus!
