//! The memo table of the query engine: results of pure computations, each
//! tagged with the revision at which it was computed.

use std::collections::HashMap;
use vstd::prelude::*;

verus! {

/// A result together with the revision of the inputs it was computed from.
#[derive(Clone, Debug)]
pub struct MemoEntry<V> {
    pub revision: u64,
    pub value: V,
}

/// Results of one query, by key. An entry answers a lookup only at the
/// revision at which it was stored: a write to the inputs moves the
/// revision on and thereby retires every entry at once.
pub struct MemoTable<V> {
    entries: HashMap<u128, MemoEntry<V>>,
}

impl<V> View for MemoTable<V> {
    type V = Map<u128, MemoEntry<V>>;

    closed spec fn view(&self) -> Map<u128, MemoEntry<V>> {
        self.entries@
    }
}

impl<V> MemoTable<V> {
    /// States that the table answers `key` at `revision`.
    pub open spec fn holds(&self, key: u128, revision: u64) -> bool {
        self@.contains_key(key) && self@[key].revision == revision
    }

    /// A table without entries.
    pub fn new() -> (table: Self)
        ensures
            table@ == Map::<u128, MemoEntry<V>>::empty(),
    {
        MemoTable { entries: HashMap::new() }
    }

    /// A table with the same entries.
    pub fn duplicate(&self) -> (table: Self)
        where
            V: Clone,
        ensures
            table@ == self@,
    {
        MemoTable { entries: self.entries.clone() }
    }

    /// The result stored under `key`, if it was stored at `revision`.
    pub fn lookup(&self, key: u128, revision: u64) -> (hit: Option<&V>)
        ensures
            hit matches Some(value) ==> self.holds(key, revision) && *value == self@[key].value,
            hit is None ==> !self.holds(key, revision),
    {
        broadcast use vstd::std_specs::hash::group_hash_axioms;

        match self.entries.get(&key) {
            Some(entry) => if entry.revision == revision {
                Some(&entry.value)
            } else {
                None
            },
            None => None,
        }
    }

    /// Stores `value` under `key` as computed at `revision`, in place of
    /// what was stored under `key` before.
    pub fn store(&mut self, key: u128, revision: u64, value: V)
        ensures
            final(self)@ == old(self)@.insert(key, MemoEntry { revision, value }),
    {
        broadcast use vstd::std_specs::hash::group_hash_axioms;

        self.entries.insert(key, MemoEntry { revision, value });
    }
}

} // verus!
