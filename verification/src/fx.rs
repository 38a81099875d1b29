//! The hash collections that a tree build works on: the set of module
//! sources that were expanded, and the table of the files that stand as
//! roots. Both are the collections of `rustc_hash`.

use crate::input::FileId;
use crate::source::{lemma_key_injective, ModuleSource};
use crate::tree::ModuleId;
use rustc_hash::{FxHashMap, FxHashSet, FxHasher};
use vstd::prelude::*;

verus! {

#[verifier::external_type_specification]
#[verifier::external_body]
pub struct ExFxHasher(FxHasher);

#[verifier::external_type_specification]
#[verifier::external_body]
#[verifier::reject_recursive_types(H)]
pub struct ExBuildHasherDefault<H>(core::hash::BuildHasherDefault<H>);

/// The key under which a module source is kept in a hash set: a tag for its
/// kind, the file, and the bounds of the inline node (zero for a whole file).
pub type SourceKey = (u8, u32, u32, u32);

/// A hash set of source keys.
pub type KeySet = FxHashSet<SourceKey>;

/// A hash table from the number of a file to the index of a module.
pub type FileTable = FxHashMap<u32, usize>;

/// `HashSet::insert` on a set that hashes with `FxHasher`. The hasher
/// computes its value from the bytes written to it alone, and a tuple of
/// integers hashes and compares by its components, so the set holds
/// exactly the keys that were inserted: afterwards it holds `key` beside
/// what it held, and the result tells whether `key` is new.
#[verifier::external_body]
fn key_set_insert(set: &mut KeySet, key: SourceKey) -> (fresh: bool)
    ensures
        final(set)@ == old(set)@.insert(key),
        fresh == !old(set)@.contains(key),
{
    set.insert(key)
}

/// `HashSet::contains` on a set that hashes with `FxHasher`: tells whether
/// `key` was inserted.
#[verifier::external_body]
fn key_set_contains(set: &KeySet, key: SourceKey) -> (found: bool)
    ensures
        found == set@.contains(key),
{
    set.contains(&key)
}

/// `HashMap::insert` on a table that hashes with `FxHasher`: afterwards
/// the table maps `key` to `value` and is otherwise unchanged, and the
/// result is what `key` was mapped to before.
#[verifier::external_body]
fn file_table_insert(table: &mut FileTable, key: u32, value: usize) -> (prev: Option<usize>)
    ensures
        final(table)@ == old(table)@.insert(key, value),
        prev == (if old(table)@.contains_key(key) {
            Some(old(table)@[key])
        } else {
            None
        }),
{
    table.insert(key, value)
}

/// `HashMap::remove` on a table that hashes with `FxHasher`: afterwards
/// the table does not map `key` and is otherwise unchanged, and the result
/// is what `key` was mapped to before.
#[verifier::external_body]
fn file_table_remove(table: &mut FileTable, key: u32) -> (prev: Option<usize>)
    ensures
        final(table)@ == old(table)@.remove(key),
        prev == (if old(table)@.contains_key(key) {
            Some(old(table)@[key])
        } else {
            None
        }),
{
    table.remove(&key)
}

/// The module sources that a tree build has expanded.
pub struct VisitedSet {
    keys: KeySet,
}

impl View for VisitedSet {
    type V = Set<ModuleSource>;

    closed spec fn view(&self) -> Set<ModuleSource> {
        Set::new(|source: ModuleSource| self.keys@.contains(source.key()))
    }
}

impl VisitedSet {
    /// The empty set.
    pub fn new() -> (set: Self)
        ensures
            set@ == Set::<ModuleSource>::empty(),
    {
        let set = VisitedSet { keys: FxHashSet::default() };
        assert(set@ =~= Set::empty());
        set
    }

    /// Adds `source`, and tells whether it was missing.
    pub fn insert(&mut self, source: ModuleSource) -> (fresh: bool)
        ensures
            final(self)@ == old(self)@.insert(source),
            fresh == !old(self)@.contains(source),
    {
        let fresh = key_set_insert(&mut self.keys, source.hash_key());
        proof {
            assert forall|other: ModuleSource|
                self@.contains(other) <==> old(self)@.insert(source).contains(other) by {
                if other.key() == source.key() {
                    lemma_key_injective(other, source);
                }
            }
            assert(self@ =~= old(self)@.insert(source));
        }
        fresh
    }

    /// Tells whether `source` is in the set.
    pub fn contains(&self, source: ModuleSource) -> (found: bool)
        ensures
            found == self@.contains(source),
    {
        key_set_contains(&self.keys, source.hash_key())
    }
}

/// The files that stand as roots of the forest built so far, each with the
/// module that was made for it.
pub struct RootTable {
    table: FileTable,
}

impl View for RootTable {
    type V = Map<FileId, ModuleId>;

    closed spec fn view(&self) -> Map<FileId, ModuleId> {
        Map::new(
            |file: FileId| self.table@.contains_key(file.0),
            |file: FileId| ModuleId(self.table@[file.0]),
        )
    }
}

impl RootTable {
    /// The empty table.
    pub fn new() -> (roots: Self)
        ensures
            roots@ == Map::<FileId, ModuleId>::empty(),
    {
        let roots = RootTable { table: FxHashMap::default() };
        assert(roots@ =~= Map::empty());
        roots
    }

    /// Records `module` as the root that stands for `file`.
    pub fn insert(&mut self, file: FileId, module: ModuleId)
        ensures
            final(self)@ == old(self)@.insert(file, module),
    {
        file_table_insert(&mut self.table, file.0, module.0);
        assert(self@ =~= old(self)@.insert(file, module));
    }

    /// Takes the root that stands for `file` out of the table, if there is
    /// one, and hands it out.
    pub fn remove(&mut self, file: FileId) -> (module: Option<ModuleId>)
        ensures
            final(self)@ == old(self)@.remove(file),
            module == (if old(self)@.contains_key(file) {
                Some(old(self)@[file])
            } else {
                None
            }),
    {
        let prev = file_table_remove(&mut self.table, file.0);
        assert(self@ =~= old(self)@.remove(file));
        match prev {
            Some(index) => Some(ModuleId(index)),
            None => None,
        }
    }
}

} // verus!
