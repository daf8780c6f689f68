//! A small map from text keys to values.
//!
//! Entries are kept in the order in which their keys were first inserted, and
//! no key occurs twice.

use crate::json::copy_json;
use crate::text::str_eq;
use vstd::prelude::*;

verus! {

/// Some entry carries the key.
pub open spec fn has_key<V>(entries: Seq<(String, V)>, key: Seq<char>) -> bool {
    exists|i: int| 0 <= i < entries.len() && (#[trigger] entries[i]).0@ == key
}

/// The place of the entry that carries the key.
pub open spec fn place_of<V>(entries: Seq<(String, V)>, key: Seq<char>) -> int {
    choose|i: int| 0 <= i < entries.len() && (#[trigger] entries[i]).0@ == key
}

/// No two entries carry the same key.
pub open spec fn distinct_keys<V>(entries: Seq<(String, V)>) -> bool {
    forall|i: int, j: int|
        0 <= i < entries.len() && 0 <= j < entries.len() && (#[trigger] entries[i]).0@ == (
        #[trigger] entries[j]).0@ ==> i == j
}

/// The map that a sequence of entries with distinct keys stands for.
pub open spec fn as_map<V>(entries: Seq<(String, V)>) -> Map<Seq<char>, V> {
    Map::new(|k: Seq<char>| has_key(entries, k), |k: Seq<char>| entries[place_of(entries, k)].1)
}

/// A map from text keys to values of type `V`.
#[derive(Debug, PartialEq)]
pub struct TextMap<V> {
    entries: Vec<(String, V)>,
}

impl<V> View for TextMap<V> {
    type V = Map<Seq<char>, V>;

    closed spec fn view(&self) -> Map<Seq<char>, V> {
        as_map(self.entries@)
    }
}

impl<V> TextMap<V> {
    #[verifier::type_invariant]
    spec fn inv(self) -> bool {
        distinct_keys(self.entries@)
    }

    /// The keys in the order of their first insertion.
    pub closed spec fn key_order(&self) -> Seq<Seq<char>> {
        Seq::new(self.entries@.len(), |i: int| self.entries@[i].0@)
    }

    /// The empty map.
    pub fn new() -> (m: TextMap<V>)
        ensures
            m@ == Map::<Seq<char>, V>::empty(),
            m.key_order() == Seq::<Seq<char>>::empty(),
    {
        let m = TextMap { entries: Vec::new() };
        assert(m@ =~= Map::<Seq<char>, V>::empty());
        assert(m.key_order() =~= Seq::<Seq<char>>::empty());
        m
    }

    /// The entries, in the order in which their keys were first inserted.
    pub fn entries(&self) -> (entries: &Vec<(String, V)>)
        ensures
            distinct_keys(entries@),
            as_map(entries@) == self@,
    {
        proof {
            use_type_invariant(self);
        }
        &self.entries
    }

    /// The map with the given entries, whose keys must differ from each
    /// other.
    pub(crate) fn from_entries(entries: Vec<(String, V)>) -> (m: TextMap<V>)
        requires
            distinct_keys(entries@),
        ensures
            m@ == as_map(entries@),
    {
        TextMap { entries }
    }

    /// The place of the entry that carries the key.
    fn find(&self, key: &str) -> (r: Option<usize>)
        ensures
            r is Some <==> has_key(self.entries@, key@),
            r matches Some(i) ==> i < self.entries@.len() && self.entries@[i as int].0@ == key@
                && i == place_of(self.entries@, key@),
    {
        proof {
            use_type_invariant(self);
        }
        let mut i: usize = 0;
        while i < self.entries.len()
            invariant
                distinct_keys(self.entries@),
                i <= self.entries.len(),
                forall|k: int| 0 <= k < i ==> (#[trigger] self.entries@[k]).0@ != key@,
            decreases self.entries.len() - i,
        {
            if str_eq(self.entries[i].0.as_str(), key) {
                return Some(i);
            }
            i = i + 1;
        }
        None
    }

    /// The number of entries.
    pub fn len(&self) -> (n: usize)
        ensures
            n == self.key_order().len(),
    {
        self.entries.len()
    }

    /// Whether the map has no entry.
    pub fn is_empty(&self) -> (empty: bool)
        ensures
            empty == (self.key_order().len() == 0),
            empty == (self@ == Map::<Seq<char>, V>::empty()),
    {
        let empty = self.entries.len() == 0;
        proof {
            if empty {
                assert(self@ =~= Map::<Seq<char>, V>::empty());
            } else {
                assert(has_key(self.entries@, self.entries@[0].0@));
                assert(self@.contains_key(self.entries@[0].0@));
            }
        }
        empty
    }

    /// Whether the map holds the key.
    pub fn contains_key(&self, key: &str) -> (found: bool)
        ensures
            found == self@.contains_key(key@),
    {
        self.find(key).is_some()
    }

    /// The value stored under the key.
    pub fn get(&self, key: &str) -> (r: Option<&V>)
        ensures
            r is Some <==> self@.contains_key(key@),
            r matches Some(v) ==> *v == self@[key@],
    {
        match self.find(key) {
            Some(i) => Some(&self.entries[i].1),
            None => None,
        }
    }

    /// The key of the entry at place `i`.
    pub fn key_at(&self, i: usize) -> (key: &String)
        requires
            i < self.key_order().len(),
        ensures
            key@ == self.key_order()[i as int],
            self@.contains_key(key@),
    {
        assert(has_key(self.entries@, self.entries@[i as int].0@));
        &self.entries[i].0
    }

    /// The value of the entry at place `i`.
    pub fn value_at(&self, i: usize) -> (value: &V)
        requires
            i < self.key_order().len(),
        ensures
            *value == self@[self.key_order()[i as int]],
    {
        proof {
            use_type_invariant(self);
            assert(has_key(self.entries@, self.entries@[i as int].0@));
        }
        &self.entries[i].1
    }

    /// Stores the value under the key and returns the value that it
    /// replaces, if any. A new key goes behind the keys that are there.
    pub fn insert(&mut self, key: String, value: V) -> (r: Option<V>)
        ensures
            final(self)@ == old(self)@.insert(key@, value),
            r == if old(self)@.contains_key(key@) {
                Some(old(self)@[key@])
            } else {
                None::<V>
            },
            final(self).key_order() == if old(self)@.contains_key(key@) {
                old(self).key_order()
            } else {
                old(self).key_order().push(key@)
            },
    {
        proof {
            use_type_invariant(&*self);
        }
        let ghost before = self.entries@;
        let found = self.find(key.as_str());
        let mut entries: Vec<(String, V)> = Vec::new();
        core::mem::swap(&mut self.entries, &mut entries);
        match found {
            Some(i) => {
                let ghost wanted = key@;
                let replaced = entries.remove(i);
                entries.insert(i, (key, value));
                let ghost after = entries@;
                assert forall|a: int| 0 <= a < after.len() implies (#[trigger] after[a]).0@
                    == before[a].0@ && (a != i ==> after[a] == before[a]) by {}
                assert(distinct_keys(after)) by {
                    assert forall|a: int, b: int|
                        0 <= a < after.len() && 0 <= b < after.len() && (#[trigger] after[a]).0@
                            == (#[trigger] after[b]).0@ implies a == b by {
                        assert(before[a].0@ == before[b].0@);
                    }
                }
                core::mem::swap(&mut self.entries, &mut entries);
                proof {
                    lemma_same_keys(before, after);
                    assert(self@ =~= old(self)@.insert(wanted, value)) by {
                        assert forall|k: Seq<char>| has_key(after, k) implies as_map(after)[k]
                            == old(self)@.insert(wanted, value)[k] by {
                            let a = place_of(after, k);
                            assert(before[a].0@ == k);
                            assert(place_of(before, k) == a);
                        }
                    }
                    assert(self.key_order() =~= old(self).key_order());
                }
                Some(replaced.1)
            },
            None => {
                let ghost wanted = key@;
                entries.push((key, value));
                let ghost after = entries@;
                assert(distinct_keys(after)) by {
                    assert forall|a: int, b: int|
                        0 <= a < after.len() && 0 <= b < after.len() && (#[trigger] after[a]).0@
                            == (#[trigger] after[b]).0@ implies a == b by {
                        if a < before.len() && b < before.len() {
                            assert(before[a].0@ == before[b].0@);
                        } else if a < before.len() {
                            assert(before[a].0@ == wanted);
                        } else if b < before.len() {
                            assert(before[b].0@ == wanted);
                        }
                    }
                }
                core::mem::swap(&mut self.entries, &mut entries);
                proof {
                    assert(self@ =~= old(self)@.insert(wanted, value)) by {
                        assert forall|k: Seq<char>|
                            has_key(after, k) <==> has_key(before, k) || k == wanted by {
                            if has_key(before, k) {
                                let a = place_of(before, k);
                                assert(after[a].0@ == k);
                            }
                            if k == wanted {
                                assert(after[before.len() as int].0@ == k);
                            }
                            if has_key(after, k) {
                                let a = place_of(after, k);
                                if a < before.len() {
                                    assert(before[a].0@ == k);
                                }
                            }
                        }
                        assert forall|k: Seq<char>| has_key(after, k) implies as_map(after)[k]
                            == old(self)@.insert(wanted, value)[k] by {
                            let a = place_of(after, k);
                            if a < before.len() {
                                assert(before[a].0@ == k);
                                assert(place_of(before, k) == a);
                            }
                        }
                    }
                    assert(self.key_order() =~= old(self).key_order().push(wanted));
                }
                None
            },
        }
    }

    /// Takes the entry of the key out of the map and returns its value.
    pub fn remove(&mut self, key: &str) -> (r: Option<V>)
        ensures
            final(self)@ == old(self)@.remove(key@),
            r == if old(self)@.contains_key(key@) {
                Some(old(self)@[key@])
            } else {
                None::<V>
            },
    {
        proof {
            use_type_invariant(&*self);
        }
        let ghost before = self.entries@;
        match self.find(key) {
            Some(i) => {
                let mut entries: Vec<(String, V)> = Vec::new();
                core::mem::swap(&mut self.entries, &mut entries);
                let removed = entries.remove(i);
                let ghost after = entries@;
                assert(distinct_keys(after)) by {
                    assert forall|a: int, b: int|
                        0 <= a < after.len() && 0 <= b < after.len() && (#[trigger] after[a]).0@
                            == (#[trigger] after[b]).0@ implies a == b by {
                        let a0 = if a < i { a } else { a + 1 };
                        let b0 = if b < i { b } else { b + 1 };
                        assert(before[a0].0@ == before[b0].0@);
                    }
                }
                core::mem::swap(&mut self.entries, &mut entries);
                proof {
                    assert forall|k: Seq<char>|
                        has_key(after, k) <==> has_key(before, k) && k != key@ by {
                        if has_key(before, k) && k != key@ {
                            let a0 = place_of(before, k);
                            let a = if a0 < i { a0 } else { a0 - 1 };
                            assert(after[a].0@ == k);
                        }
                        if has_key(after, k) {
                            let a = place_of(after, k);
                            let a0 = if a < i { a } else { a + 1 };
                            assert(before[a0].0@ == k);
                        }
                    }
                    assert forall|k: Seq<char>| has_key(after, k) implies as_map(after)[k]
                        == as_map(before)[k] by {
                        let a = place_of(after, k);
                        let a0 = if a < i { a } else { a + 1 };
                        assert(before[a0].0@ == k);
                        assert(place_of(before, k) == a0);
                    }
                    assert(self@ =~= old(self)@.remove(key@));
                }
                Some(removed.1)
            },
            None => {
                assert(self@ =~= old(self)@.remove(key@));
                None
            },
        }
    }
}

impl TextMap<serde_json::Value> {
    /// A copy of the map.
    pub fn duplicate(&self) -> (r: TextMap<serde_json::Value>)
        ensures
            r@ == self@,
            r.key_order() == self.key_order(),
    {
        proof {
            use_type_invariant(self);
        }
        let mut entries: Vec<(String, serde_json::Value)> = Vec::new();
        let mut i: usize = 0;
        while i < self.entries.len()
            invariant
                i <= self.entries.len(),
                entries@.len() == i,
                forall|k: int|
                    0 <= k < i ==> (#[trigger] entries@[k]).0@ == self.entries@[k].0@
                        && entries@[k].1 == self.entries@[k].1,
            decreases self.entries.len() - i,
        {
            let entry = &self.entries[i];
            entries.push((entry.0.clone(), copy_json(&entry.1)));
            i = i + 1;
        }
        proof {
            lemma_same_entries(self.entries@, entries@);
        }
        let r = TextMap { entries };
        assert(r.key_order() =~= self.key_order());
        r
    }
}

impl TextMap<String> {
    /// A copy of the map.
    pub fn duplicate(&self) -> (r: TextMap<String>)
        ensures
            r@ == self@,
            r.key_order() == self.key_order(),
    {
        proof {
            use_type_invariant(self);
        }
        let mut entries: Vec<(String, String)> = Vec::new();
        let mut i: usize = 0;
        while i < self.entries.len()
            invariant
                i <= self.entries.len(),
                entries@.len() == i,
                forall|k: int|
                    0 <= k < i ==> (#[trigger] entries@[k]).0@ == self.entries@[k].0@
                        && entries@[k].1 == self.entries@[k].1,
            decreases self.entries.len() - i,
        {
            let entry = &self.entries[i];
            entries.push((entry.0.clone(), entry.1.clone()));
            i = i + 1;
        }
        proof {
            lemma_same_entries(self.entries@, entries@);
        }
        let r = TextMap { entries };
        assert(r.key_order() =~= self.key_order());
        r
    }
}

/// Sequences of entries with the same keys and values at the same places
/// stand for the same map.
proof fn lemma_same_entries<V>(a: Seq<(String, V)>, b: Seq<(String, V)>)
    requires
        distinct_keys(a),
        a.len() == b.len(),
        forall|i: int| 0 <= i < a.len() ==> (#[trigger] b[i]).0@ == a[i].0@ && b[i].1 == a[i].1,
    ensures
        distinct_keys(b),
        as_map(a) == as_map(b),
{
    assert forall|i: int, j: int|
        0 <= i < b.len() && 0 <= j < b.len() && (#[trigger] b[i]).0@ == (#[trigger] b[j]).0@
        implies i == j by {
        assert(a[i].0@ == a[j].0@);
    }
    assert forall|k: Seq<char>| has_key(a, k) <==> has_key(b, k) by {
        if has_key(a, k) {
            let i = place_of(a, k);
            assert(b[i].0@ == k);
        }
        if has_key(b, k) {
            let i = place_of(b, k);
            assert(a[i].0@ == k);
        }
    }
    assert forall|k: Seq<char>| has_key(a, k) implies as_map(a)[k] == as_map(b)[k] by {
        let i = place_of(a, k);
        assert(b[i].0@ == k);
        assert(place_of(b, k) == i);
    }
    assert(as_map(a) =~= as_map(b));
}

/// Sequences of entries with the same keys at the same places hold the same
/// keys.
proof fn lemma_same_keys<V>(a: Seq<(String, V)>, b: Seq<(String, V)>)
    requires
        a.len() == b.len(),
        forall|i: int| 0 <= i < a.len() ==> (#[trigger] a[i]).0@ == b[i].0@,
    ensures
        forall|k: Seq<char>| has_key(a, k) <==> has_key(b, k),
{
    assert forall|k: Seq<char>| has_key(a, k) <==> has_key(b, k) by {
        if has_key(a, k) {
            let i = place_of(a, k);
            assert(b[i].0@ == k);
        }
        if has_key(b, k) {
            let i = place_of(b, k);
            assert(a[i].0@ == k);
        }
    }
}

} // verus!
