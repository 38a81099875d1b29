//! The database: the inputs of the analysis, the revision they are at, and
//! the memo tables of the queries that are derived from them.

use crate::cancel::{is_stale, Cancelable, RevisionClock};
use crate::build_state::{is_module_tree, module_tree_of};
use crate::builder::{build_env, module_tree};
use crate::input::{FileId, FileResolver, SourceRoot, SourceRootId};
use crate::memo::MemoTable;
use crate::scope::{scope_entries, ScopeEntryView};
use crate::source::{
    items_in, lemma_memo_key_injective, submodules, submodules_in, ModuleSource, Submodule,
    SubmoduleView,
};
use crate::syntax::{SyntaxItem, SyntaxItemView};
use crate::tree::{ModuleTree, TreeView};
use std::collections::HashMap;
use std::sync::Arc;
use vstd::prelude::*;

verus! {

/// Another handle to the value that `shared` points to, made with
/// `Arc::clone`: the two handles refer to one and the same value.
#[verifier::external_body]
pub(crate) fn share<T>(shared: &Arc<T>) -> (other: Arc<T>)
    ensures
        other == *shared,
{
    Arc::clone(shared)
}

/// The key that stands for a source root in a memo table.
pub open spec fn tree_key(id: SourceRootId) -> u128 {
    id.0 as u128
}

/// The inputs at one revision, with the results derived from them so far.
/// A snapshot is read-only as far as the inputs go: queries only add to its
/// memo tables.
pub struct Snapshot<R> {
    revision: u64,
    syntax: HashMap<u32, Arc<Vec<SyntaxItem>>>,
    source_roots: HashMap<u32, Arc<SourceRoot<R>>>,
    submodules: MemoTable<Arc<Vec<Submodule>>>,
    trees: MemoTable<Arc<ModuleTree>>,
}

impl<R: FileResolver> Snapshot<R> {
    /// The revision that the inputs are at.
    pub closed spec fn revision(&self) -> u64 {
        self.revision
    }

    /// The items of each file that has been given some.
    pub closed spec fn syntax(&self) -> Map<FileId, Seq<SyntaxItemView>> {
        Map::new(
            |file: FileId| self.syntax@.contains_key(file.0),
            |file: FileId| self.syntax@[file.0].deep_view(),
        )
    }

    /// The source roots, by their identifiers.
    pub closed spec fn source_roots(&self) -> Map<SourceRootId, SourceRoot<R>> {
        Map::new(
            |root: SourceRootId| self.source_roots@.contains_key(root.0),
            |root: SourceRootId| *self.source_roots@[root.0],
        )
    }

    /// The items of `file`; a file that has been given none has none.
    pub open spec fn file_items(&self, file: FileId) -> Seq<SyntaxItemView> {
        if self.syntax().contains_key(file) {
            self.syntax()[file]
        } else {
            Seq::empty()
        }
    }

    /// The submodules that `source` declares, going by the items of its file.
    pub open spec fn submodules_of(&self, source: ModuleSource) -> Seq<SubmoduleView> {
        submodules_in(self.file_items(source.file()), source)
    }

    /// Two snapshots with the same inputs answer every query alike.
    pub open spec fn same_inputs(&self, other: &Self) -> bool {
        &&& self.revision() == other.revision()
        &&& self.syntax() == other.syntax()
        &&& self.source_roots() == other.source_roots()
    }

    /// States that the submodules that are memoized in `before` are memoized
    /// in this snapshot too.
    pub open spec fn remembers(&self, before: &Self) -> bool {
        forall|source: ModuleSource| #[trigger]
            before.memoized_submodules().contains_key(source)
                ==> self.memoized_submodules().contains_key(source)
                && self.memoized_submodules()[source] == before.memoized_submodules()[source]
    }

    /// States that this snapshot is `before` after queries have run on it:
    /// the inputs are the same, what was memoized is still memoized, and no
    /// tree was memoized in addition.
    pub open spec fn grown_from(&self, before: &Self) -> bool {
        &&& self.same_inputs(before)
        &&& self.memoized_trees() == before.memoized_trees()
        &&& self.remembers(before)
    }

    /// The items that `source` holds, picked out of the items of its file.
    pub open spec fn items_of(&self, source: ModuleSource) -> Seq<SyntaxItemView> {
        items_in(self.file_items(source.file()), source)
    }

    /// The scope of a module with the source `source`.
    pub open spec fn scope_of(&self, source: ModuleSource) -> Seq<ScopeEntryView> {
        scope_entries(self.items_of(source))
    }

    /// The module tree of the source root `id`.
    pub open spec fn tree_of(&self, id: SourceRootId) -> TreeView {
        module_tree_of(
            build_env(self, self.source_roots()[id].resolver()),
            self.source_roots()[id].members(),
        )
    }

    /// States that `tree` is the module tree of the source root `id`, which
    /// is known to this snapshot.
    pub open spec fn is_tree_of(&self, id: SourceRootId, tree: TreeView) -> bool {
        &&& self.source_roots().contains_key(id)
        &&& is_module_tree(
            build_env(self, self.source_roots()[id].resolver()),
            self.source_roots()[id].members(),
            tree,
        )
    }

    /// Every memo entry of the current revision holds what the query gives
    /// on the current inputs, and no entry is from a later revision.
    pub closed spec fn wf(&self) -> bool {
        &&& forall|key: u128| #[trigger]
            self.submodules@.contains_key(key) ==> self.submodules@[key].revision <= self.revision
        &&& forall|key: u128| #[trigger]
            self.trees@.contains_key(key) ==> self.trees@[key].revision <= self.revision
        &&& forall|source: ModuleSource|
            self.submodules.holds(#[trigger] source.memo_key(), self.revision)
                ==> self.submodules@[source.memo_key()].value.deep_view() == self.submodules_of(
                source,
            )
        &&& forall|id: SourceRootId|
            self.trees.holds(#[trigger] tree_key(id), self.revision) ==> self.is_tree_of(
                id,
                self.trees@[tree_key(id)].value@,
            )
    }

    /// The items of `file`, if it has been given some.
    pub fn file_syntax(&self, file: FileId) -> (items: Option<&Arc<Vec<SyntaxItem>>>)
        ensures
            items is Some <==> self.syntax().contains_key(file),
            items matches Some(items) ==> items.deep_view() == self.file_items(file),
    {
        broadcast use vstd::std_specs::hash::group_hash_axioms;

        self.syntax.get(&file.0)
    }

    /// The source root with the given identifier, if there is one.
    pub fn source_root(&self, id: SourceRootId) -> (root: Option<Arc<SourceRoot<R>>>)
        ensures
            root is Some <==> self.source_roots().contains_key(id),
            root matches Some(root) ==> *root == self.source_roots()[id],
    {
        broadcast use vstd::std_specs::hash::group_hash_axioms;

        match self.source_roots.get(&id.0) {
            Some(root) => Some(share(root)),
            None => None,
        }
    }

    /// The submodules that are memoized for the revision of this snapshot,
    /// by the source that declares them. An entry that was stored at an
    /// earlier revision does not count.
    pub closed spec fn memoized_submodules(&self) -> Map<ModuleSource, Seq<SubmoduleView>> {
        Map::new(
            |source: ModuleSource| self.submodules.holds(source.memo_key(), self.revision),
            |source: ModuleSource| self.submodules@[source.memo_key()].value.deep_view(),
        )
    }

    /// The module trees that are memoized for the revision of this
    /// snapshot, by their source root. An entry that was stored at an
    /// earlier revision does not count.
    pub closed spec fn memoized_trees(&self) -> Map<SourceRootId, TreeView> {
        Map::new(
            |id: SourceRootId| self.trees.holds(tree_key(id), self.revision),
            |id: SourceRootId| self.trees@[tree_key(id)].value@,
        )
    }

    /// What is memoized is what the queries give on the inputs of this
    /// snapshot: the submodules that the source declares, and the tree of
    /// the source root.
    pub proof fn lemma_memo_is_right(&self)
        requires
            self.wf(),
        ensures
            forall|source: ModuleSource| #[trigger]
                self.memoized_submodules().contains_key(source)
                    ==> self.memoized_submodules()[source] == self.submodules_of(source),
            forall|id: SourceRootId| #[trigger]
                self.memoized_trees().contains_key(id) ==> self.is_tree_of(
                    id,
                    self.memoized_trees()[id],
                ),
    {
        assert forall|source: ModuleSource| #[trigger]
            self.memoized_submodules().contains_key(
                source,
            ) implies self.memoized_submodules()[source] == self.submodules_of(source) by {
            assert(self.submodules.holds(source.memo_key(), self.revision));
        }
        assert forall|id: SourceRootId| #[trigger]
            self.memoized_trees().contains_key(id) implies self.is_tree_of(
            id,
            self.memoized_trees()[id],
        ) by {
            assert(self.trees.holds(tree_key(id), self.revision));
        }
    }

    /// The revision that the inputs are at.
    pub fn pinned_revision(&self) -> (revision: u64)
        ensures
            revision == self.revision(),
    {
        self.revision
    }

    /// Fails with `Canceled` exactly when `clock` has moved past the
    /// revision of this snapshot.
    pub fn check_canceled(&self, clock: &RevisionClock) -> (res: Cancelable<()>)
        ensures
            res is Err <==> is_stale(clock@, self.revision()),
    {
        clock.check_canceled(self.revision)
    }

    /// The memoized submodules of `source`: there are some exactly if they
    /// were stored at the revision of this snapshot, and they are what was
    /// stored, which is what `source` declares.
    pub(crate) fn cached_submodules(&self, source: ModuleSource) -> (hit: Option<
        Arc<Vec<Submodule>>,
    >)
        requires
            self.wf(),
        ensures
            hit is Some <==> self.memoized_submodules().contains_key(source),
            hit matches Some(subs) ==> subs.deep_view() == self.memoized_submodules()[source],
            hit matches Some(subs) ==> subs.deep_view() == self.submodules_of(source),
    {
        match self.submodules.lookup(source.query_key(), self.revision) {
            Some(subs) => Some(share(subs)),
            None => None,
        }
    }

    /// Memoizes the submodules of `source` for the revision of this
    /// snapshot: from now on they are what is memoized for `source`, in
    /// place of what was; what is memoized for other sources, and the
    /// memoized trees, stay.
    pub(crate) fn remember_submodules(&mut self, source: ModuleSource, subs: Arc<Vec<Submodule>>)
        requires
            old(self).wf(),
            subs.deep_view() == old(self).submodules_of(source),
        ensures
            final(self).wf(),
            final(self).same_inputs(old(self)),
            final(self).memoized_submodules() == old(self).memoized_submodules().insert(
                source,
                subs.deep_view(),
            ),
            final(self).memoized_trees() == old(self).memoized_trees(),
    {
        self.submodules.store(source.query_key(), self.revision, subs);
        proof {
            assert forall|other: ModuleSource|
                other != source implies #[trigger] other.memo_key() != source.memo_key() by {
                if other.memo_key() == source.memo_key() {
                    lemma_memo_key_injective(other, source);
                }
            }
            assert(self.memoized_submodules() =~= old(self).memoized_submodules().insert(
                source,
                subs.deep_view(),
            ));
            assert(self.memoized_trees() =~= old(self).memoized_trees());
            assert forall|other: ModuleSource|
                self.submodules.holds(
                    #[trigger] other.memo_key(),
                    self.revision,
                ) implies self.submodules@[other.memo_key()].value.deep_view()
                == self.submodules_of(other) by {
                if other.memo_key() == source.memo_key() {
                    lemma_memo_key_injective(other, source);
                } else {
                    assert(old(self).submodules.holds(other.memo_key(), self.revision));
                }
            }
        }
    }

    /// The memoized module tree of the source root `id`: there is one
    /// exactly if it was stored at the revision of this snapshot, and it is
    /// what was stored, which is the tree of the source root.
    pub(crate) fn cached_tree(&self, id: SourceRootId) -> (hit: Option<Arc<ModuleTree>>)
        requires
            self.wf(),
        ensures
            hit is Some <==> self.memoized_trees().contains_key(id),
            hit matches Some(tree) ==> tree@ == self.memoized_trees()[id],
            hit matches Some(tree) ==> self.is_tree_of(id, tree@),
    {
        match self.trees.lookup(id.0 as u128, self.revision) {
            Some(tree) => {
                assert(self.trees.holds(tree_key(id), self.revision));
                Some(share(tree))
            },
            None => None,
        }
    }

    /// Memoizes the module tree of the source root `id` for the revision
    /// of this snapshot: from now on it is what is memoized for `id`, in
    /// place of what was; what is memoized for other source roots, and the
    /// memoized submodules, stay.
    pub(crate) fn remember_tree(&mut self, id: SourceRootId, tree: Arc<ModuleTree>)
        requires
            old(self).wf(),
            old(self).is_tree_of(id, tree@),
        ensures
            final(self).wf(),
            final(self).same_inputs(old(self)),
            final(self).memoized_trees() == old(self).memoized_trees().insert(id, tree@),
            final(self).memoized_submodules() == old(self).memoized_submodules(),
    {
        self.trees.store(id.0 as u128, self.revision, tree);
        proof {
            assert(self.memoized_trees() =~= old(self).memoized_trees().insert(id, tree@));
            assert(self.memoized_submodules() =~= old(self).memoized_submodules());
            assert forall|other: SourceRootId|
                self.trees.holds(#[trigger] tree_key(other), self.revision) implies self.is_tree_of(
                other,
                self.trees@[tree_key(other)].value@,
            ) by {
                if other != id {
                    assert(old(self).trees.holds(tree_key(other), self.revision));
                    assert(old(self).is_tree_of(other, old(self).trees@[tree_key(other)].value@));
                }
            }
        }
    }

    /// An independent handle to the same inputs at the same revision, which
    /// starts out with the results that are memoized in this one. Writes to the database
    /// that this snapshot came from do not change it: they only move the
    /// clock past its revision.
    pub fn fork(&self) -> (other: Self)
        requires
            self.wf(),
        ensures
            other.wf(),
            other.same_inputs(self),
            other.memoized_submodules() == self.memoized_submodules(),
            other.memoized_trees() == self.memoized_trees(),
    {
        let other = Snapshot {
            revision: self.revision,
            syntax: self.syntax.clone(),
            source_roots: self.source_roots.clone(),
            submodules: self.submodules.duplicate(),
            trees: self.trees.duplicate(),
        };
        proof {
            assert(other.syntax() =~= self.syntax());
            assert(other.source_roots() =~= self.source_roots());
            assert(other.memoized_submodules() =~= self.memoized_submodules());
            assert(other.memoized_trees() =~= self.memoized_trees());
            assert forall|source: ModuleSource|
                other.submodules.holds(
                    #[trigger] source.memo_key(),
                    other.revision,
                ) implies other.submodules@[source.memo_key()].value.deep_view()
                == other.submodules_of(source) by {
                assert(self.submodules.holds(source.memo_key(), self.revision));
            }
            assert forall|id: SourceRootId|
                other.trees.holds(#[trigger] tree_key(id), other.revision) implies other.is_tree_of(
                id,
                other.trees@[tree_key(id)].value@,
            ) by {
                assert(self.trees.holds(tree_key(id), self.revision));
                assert(self.is_tree_of(id, self.trees@[tree_key(id)].value@));
            }
        }
        other
    }
}

/// The database that takes the writes: the inputs at the newest revision,
/// and the clock that counts the writes. Every write moves the clock on by
/// one before it changes an input, which cancels every query that runs on
/// a snapshot forked earlier.
pub struct RootDatabase<R> {
    clock: RevisionClock,
    current: Snapshot<R>,
}

impl<R: FileResolver> RootDatabase<R> {
    /// The inputs at the newest revision.
    pub closed spec fn inputs(&self) -> Snapshot<R> {
        self.current
    }

    /// The revision that the clock shows.
    pub closed spec fn time(&self) -> u64 {
        self.clock@
    }

    /// The inputs are at the revision that the clock shows, and their
    /// memo tables hold what the queries give.
    pub open spec fn wf(&self) -> bool {
        &&& self.inputs().wf()
        &&& self.inputs().revision() == self.time()
    }

    /// A database without files and source roots, at revision zero.
    pub fn new() -> (db: Self)
        ensures
            db.wf(),
            db.time() == 0,
            db.inputs().syntax() == Map::<FileId, Seq<SyntaxItemView>>::empty(),
            db.inputs().source_roots() == Map::<SourceRootId, SourceRoot<R>>::empty(),
            db.inputs().memoized_submodules() == Map::<ModuleSource, Seq<SubmoduleView>>::empty(),
            db.inputs().memoized_trees() == Map::<SourceRootId, TreeView>::empty(),
    {
        let db = RootDatabase {
            clock: RevisionClock::new(),
            current: Snapshot {
                revision: 0,
                syntax: HashMap::new(),
                source_roots: HashMap::new(),
                submodules: MemoTable::new(),
                trees: MemoTable::new(),
            },
        };
        assert(db.inputs().syntax() =~= Map::empty());
        assert(db.inputs().source_roots() =~= Map::empty());
        assert(db.inputs().memoized_submodules() =~= Map::empty());
        assert(db.inputs().memoized_trees() =~= Map::empty());
        db
    }

    /// The clock that counts the writes to this database.
    pub fn clock(&self) -> (clock: &RevisionClock)
        ensures
            clock@ == self.time(),
    {
        &self.clock
    }

    /// A snapshot of the inputs at the newest revision that further writes
    /// to this database do not change.
    pub fn fork(&self) -> (snapshot: Snapshot<R>)
        requires
            self.wf(),
        ensures
            snapshot.wf(),
            snapshot.same_inputs(&self.inputs()),
            snapshot.memoized_submodules() == self.inputs().memoized_submodules(),
            snapshot.memoized_trees() == self.inputs().memoized_trees(),
    {
        self.current.fork()
    }

    /// The submodules that `source` declares, which are memoized from now
    /// on. On the database that takes the writes no query is ever canceled.
    pub fn submodules(&mut self, source: ModuleSource) -> (subs: Arc<Vec<Submodule>>)
        requires
            old(self).wf(),
        ensures
            final(self).wf(),
            final(self).time() == old(self).time(),
            final(self).inputs().same_inputs(&old(self).inputs()),
            subs.deep_view() == old(self).inputs().submodules_of(source),
            final(self).inputs().memoized_submodules() == old(
                self,
            ).inputs().memoized_submodules().insert(source, subs.deep_view()),
            final(self).inputs().memoized_trees() == old(self).inputs().memoized_trees(),
    {
        match submodules(&mut self.current, &self.clock, source) {
            Ok(subs) => subs,
            Err(_) => vstd::pervasive::unreached(),
        }
    }

    /// The module tree of the source root `id`, which must be known. The
    /// tree is memoized from now on, beside what was memoized. On the
    /// database that takes the writes no query is ever canceled.
    pub fn module_tree(&mut self, id: SourceRootId) -> (tree: Arc<ModuleTree>)
        requires
            old(self).wf(),
            old(self).inputs().source_roots().contains_key(id),
        ensures
            final(self).wf(),
            final(self).time() == old(self).time(),
            final(self).inputs().same_inputs(&old(self).inputs()),
            old(self).inputs().is_tree_of(id, tree@),
            final(self).inputs().memoized_trees() == old(self).inputs().memoized_trees().insert(
                id,
                tree@,
            ),
            final(self).inputs().remembers(&old(self).inputs()),
    {
        match module_tree(&mut self.current, &self.clock, id) {
            Ok(tree) => tree,
            Err(_) => vstd::pervasive::unreached(),
        }
    }

    /// Gives `file` the items `items`, which are what the parser found in
    /// its text. The clock moves on by one, and nothing is memoized any more.
    pub fn set_file_syntax(&mut self, file: FileId, items: Arc<Vec<SyntaxItem>>)
        requires
            old(self).wf(),
            old(self).time() < u64::MAX,
        ensures
            final(self).wf(),
            final(self).time() == old(self).time() + 1,
            final(self).inputs().syntax() == old(self).inputs().syntax().insert(
                file,
                items.deep_view(),
            ),
            final(self).inputs().source_roots() == old(self).inputs().source_roots(),
            final(self).inputs().memoized_submodules() == Map::<
                ModuleSource,
                Seq<SubmoduleView>,
            >::empty(),
            final(self).inputs().memoized_trees() == Map::<SourceRootId, TreeView>::empty(),
    {
        broadcast use vstd::std_specs::hash::group_hash_axioms;

        self.clock.note_write();
        self.current.revision = self.clock.current_revision();
        self.current.syntax.insert(file.0, items);
        assert(self.inputs().syntax() =~= old(self).inputs().syntax().insert(
            file,
            items.deep_view(),
        ));
        assert(self.inputs().source_roots() =~= old(self).inputs().source_roots());
        assert(self.inputs().memoized_submodules() =~= Map::empty());
        assert(self.inputs().memoized_trees() =~= Map::empty());
    }

    /// Makes `root` the source root with the identifier `id`. The clock
    /// moves on by one, and nothing is memoized any more.
    pub fn set_source_root(&mut self, id: SourceRootId, root: Arc<SourceRoot<R>>)
        requires
            old(self).wf(),
            old(self).time() < u64::MAX,
        ensures
            final(self).wf(),
            final(self).time() == old(self).time() + 1,
            final(self).inputs().syntax() == old(self).inputs().syntax(),
            final(self).inputs().source_roots() == old(self).inputs().source_roots().insert(
                id,
                *root,
            ),
            final(self).inputs().memoized_submodules() == Map::<
                ModuleSource,
                Seq<SubmoduleView>,
            >::empty(),
            final(self).inputs().memoized_trees() == Map::<SourceRootId, TreeView>::empty(),
    {
        broadcast use vstd::std_specs::hash::group_hash_axioms;

        self.clock.note_write();
        self.current.revision = self.clock.current_revision();
        self.current.source_roots.insert(id.0, root);
        assert(self.inputs().syntax() =~= old(self).inputs().syntax());
        assert(self.inputs().source_roots() =~= old(self).inputs().source_roots().insert(id, *root));
        assert(self.inputs().memoized_submodules() =~= Map::empty());
        assert(self.inputs().memoized_trees() =~= Map::empty());
    }
}

/// A query on a fork runs to its end as long as the database that it was
/// forked from takes no write: the clock has not moved past the revision
/// of the fork.
pub proof fn lemma_fork_is_fresh<R: FileResolver>(db: &RootDatabase<R>, fork: &Snapshot<R>)
    requires
        db.wf(),
        fork.same_inputs(&db.inputs()),
    ensures
        !is_stale(db.time(), fork.revision()),
{
}

/// Once the clock of a database has moved on, by one write or by many,
/// every query on a fork that was made before is canceled.
pub proof fn lemma_write_cancels_forks<R: FileResolver>(
    before: &RootDatabase<R>,
    after: &RootDatabase<R>,
    fork: &Snapshot<R>,
)
    requires
        before.wf(),
        fork.same_inputs(&before.inputs()),
        after.time() > before.time(),
    ensures
        is_stale(after.time(), fork.revision()),
{
}

} // verus!
