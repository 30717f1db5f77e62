//! A map kept as a flat sequence of entries in insertion order.
//!
//! Keys are compared with `==`. The functions that compare keys ask, by
//! `obeys_concrete_eq`, that `==` on the key type tells whether two keys are
//! the same value.

use vstd::laws_eq::obeys_concrete_eq;
use vstd::prelude::*;

verus! {

/// No two entries share a key.
pub open spec fn distinct_keys<K, V>(entries: Seq<(K, V)>) -> bool {
    forall|i: int, j: int|
        0 <= i < j < entries.len() ==> (#[trigger] entries[i]).0 != (#[trigger] entries[j]).0
}

/// Some entry has the key `key`.
pub open spec fn holds_key<K, V>(entries: Seq<(K, V)>, key: K) -> bool {
    exists|i: int| 0 <= i < entries.len() && (#[trigger] entries[i]).0 == key
}

/// The position of an entry with the key `key`, where there is one; among
/// distinct keys there is no other.
pub open spec fn key_position<K, V>(entries: Seq<(K, V)>, key: K) -> int {
    choose|i: int| 0 <= i < entries.len() && (#[trigger] entries[i]).0 == key
}

/// The value stored under `key`, if any.
pub open spec fn value_of<K, V>(entries: Seq<(K, V)>, key: K) -> Option<V> {
    if holds_key(entries, key) {
        Some(entries[key_position(entries, key)].1)
    } else {
        None
    }
}

/// The entries after `key` has been given the value `value`: an entry that
/// already has the key keeps its place and takes the new value; otherwise a
/// new entry goes to the end.
pub open spec fn with_entry<K, V>(entries: Seq<(K, V)>, key: K, value: V) -> Seq<(K, V)> {
    if holds_key(entries, key) {
        entries.update(key_position(entries, key), (key, value))
    } else {
        entries.push((key, value))
    }
}

/// Giving a key a value keeps the keys distinct.
pub proof fn lemma_with_entry_distinct<K, V>(entries: Seq<(K, V)>, key: K, value: V)
    requires
        distinct_keys(entries),
    ensures
        distinct_keys(with_entry(entries, key, value)),
{
    let after = with_entry(entries, key, value);
    assert forall|i: int, j: int| 0 <= i < j < after.len() implies (#[trigger] after[i]).0 != (
    #[trigger] after[j]).0 by {
        if holds_key(entries, key) {
            assert(after[i].0 == entries[i].0 && after[j].0 == entries[j].0);
        } else if j < entries.len() {
            assert(after[i] == entries[i] && after[j] == entries[j]);
        } else {
            assert(after[i] == entries[i]);
        }
    }
}

/// The entries of a map into which `pairs` were inserted one after the
/// other, starting from the empty map.
pub open spec fn collected<K, V>(pairs: Seq<(K, V)>) -> Seq<(K, V)>
    decreases pairs.len(),
{
    if pairs.len() == 0 {
        Seq::empty()
    } else {
        with_entry(collected(pairs.drop_last()), pairs.last().0, pairs.last().1)
    }
}

/// Pairs with distinct keys are collected as they stand.
pub proof fn lemma_collected_of_distinct<K, V>(pairs: Seq<(K, V)>)
    requires
        distinct_keys(pairs),
    ensures
        collected(pairs) == pairs,
    decreases pairs.len(),
{
    if pairs.len() > 0 {
        let front = pairs.drop_last();
        assert(distinct_keys(front)) by {
            assert forall|i: int, j: int| 0 <= i < j < front.len() implies (#[trigger] front[i]).0
                != (#[trigger] front[j]).0 by {
                assert(front[i] == pairs[i] && front[j] == pairs[j]);
            }
        }
        lemma_collected_of_distinct(front);
        if holds_key(front, pairs.last().0) {
            let p = key_position(front, pairs.last().0);
            assert(front[p] == pairs[p]);
            assert(pairs[p].0 != pairs[pairs.len() - 1].0);
        }
        assert(front.push(pairs.last()) =~= pairs);
    }
}

/// A map that keeps its entries in the order in which their keys were first
/// inserted and finds a key by scanning them.
#[derive(Debug)]
pub struct LinearMap<K, V> {
    storage: Vec<(K, V)>,
}

impl<K, V> View for LinearMap<K, V> {
    type V = Seq<(K, V)>;

    closed spec fn view(&self) -> Seq<(K, V)> {
        self.storage@
    }
}

/// Scans `storage` for `key`.
fn find<K: PartialEq, V>(storage: &Vec<(K, V)>, key: &K) -> (found: Option<usize>)
    requires
        obeys_concrete_eq::<K>(),
    ensures
        match found {
            Some(i) => i < storage@.len() && storage@[i as int].0 == *key,
            None => !holds_key(storage@, *key),
        },
{
    let mut i: usize = 0;
    while i < storage.len()
        invariant
            obeys_concrete_eq::<K>(),
            i <= storage@.len(),
            forall|j: int| 0 <= j < i ==> (#[trigger] storage@[j]).0 != *key,
        decreases storage@.len() - i,
    {
        proof {
            reveal(obeys_concrete_eq);
        }
        if storage[i].0 == *key {
            return Some(i);
        }
        i += 1;
    }
    None
}

/// Among distinct keys, a key is found at one position only.
pub proof fn lemma_position_unique<K, V>(entries: Seq<(K, V)>, key: K, at: int)
    requires
        distinct_keys(entries),
        0 <= at < entries.len(),
        entries[at].0 == key,
    ensures
        holds_key(entries, key),
        key_position(entries, key) == at,
{
    let p = key_position(entries, key);
    if p < at {
        assert(entries[p].0 != entries[at].0);
    } else if at < p {
        assert(entries[at].0 != entries[p].0);
    }
}

impl<K, V> LinearMap<K, V> {
    /// The invariant of the type: no two entries share a key.
    pub open spec fn wf(&self) -> bool {
        distinct_keys(self@)
    }

    /// An empty map.
    pub fn new() -> (map: Self)
        ensures
            map.wf(),
            map@ == Seq::<(K, V)>::empty(),
    {
        LinearMap { storage: Vec::new() }
    }

    /// An empty map with room set aside for `capacity` entries where the
    /// allocator can give it. The capacity has no effect on what the map holds.
    pub fn with_capacity(capacity: usize) -> (map: Self)
        ensures
            map.wf(),
            map@ == Seq::<(K, V)>::empty(),
    {
        let mut storage: Vec<(K, V)> = Vec::new();
        let _ = storage.try_reserve(capacity);
        LinearMap { storage }
    }

    /// The number of entries.
    pub fn len(&self) -> (n: usize)
        ensures
            n == self@.len(),
    {
        self.storage.len()
    }

    /// Whether the map has no entry.
    pub fn is_empty(&self) -> (empty: bool)
        ensures
            empty == (self@.len() == 0),
    {
        self.storage.len() == 0
    }

    /// The entry at `index` in insertion order, or `None` past the end.
    pub fn entry_at(&self, index: usize) -> (entry: Option<(&K, &V)>)
        ensures
            entry == if index < self@.len() {
                Some((&self@[index as int].0, &self@[index as int].1))
            } else {
                None
            },
    {
        if index < self.storage.len() {
            let pair = &self.storage[index];
            Some((&pair.0, &pair.1))
        } else {
            None
        }
    }

    /// The value stored under `key`, if any.
    pub fn get(&self, key: &K) -> (value: Option<&V>) where K: PartialEq
        requires
            self.wf(),
            obeys_concrete_eq::<K>(),
        ensures
            value == match value_of(self@, *key) {
                Some(v) => Some(&v),
                None => None,
            },
    {
        match find(&self.storage, key) {
            Some(i) => {
                proof {
                    lemma_position_unique(self.storage@, *key, i as int);
                }
                Some(&self.storage[i].1)
            },
            None => None,
        }
    }

    /// Gives `key` the value `value`. A key that is already present keeps
    /// its place in the order and its earlier value is handed back.
    pub fn insert(&mut self, key: K, value: V) -> (previous: Option<V>) where K: PartialEq
        requires
            old(self).wf(),
            obeys_concrete_eq::<K>(),
        ensures
            final(self).wf(),
            final(self)@ == with_entry(old(self)@, key, value),
            previous == value_of(old(self)@, key),
    {
        proof {
            lemma_with_entry_distinct(self.storage@, key, value);
        }
        match find(&self.storage, &key) {
            Some(i) => {
                proof {
                    lemma_position_unique(self.storage@, key, i as int);
                }
                self.storage.push((key, value));
                let displaced = self.storage.swap_remove(i);
                assert(self.storage@ =~= with_entry(old(self).storage@, key, value));
                Some(displaced.1)
            },
            None => {
                self.storage.push((key, value));
                None
            },
        }
    }
}

} // verus!
