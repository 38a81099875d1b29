//! The scope of a module: the names that its items declare.

use crate::builder::{module_tree, module_tree_unless};
use crate::cancel::{is_stale, Cancelable, RevisionClock};
use crate::db::Snapshot;
use crate::input::{FileResolver, SourceRootId};
use crate::source::source_items;
use crate::syntax::{SyntaxItem, SyntaxItemView, TextSpan};
use crate::tree::ModuleId;
use std::sync::Arc;
use vstd::prelude::*;

verus! {

/// A name that an item of a module declares, and where the item stands.
#[derive(Clone, Debug, PartialEq, Eq, Hash)]
pub struct ScopeEntry {
    pub name: String,
    pub range: TextSpan,
}

/// The mathematical value of a `ScopeEntry`.
pub struct ScopeEntryView {
    pub name: Seq<char>,
    pub range: TextSpan,
}

impl DeepView for ScopeEntry {
    type V = ScopeEntryView;

    open spec fn deep_view(&self) -> ScopeEntryView {
        ScopeEntryView { name: self.name@, range: self.range }
    }
}

/// The names that the items standing directly in a module declare, in
/// source order. What nested modules hold is not part of it.
#[derive(Clone, Debug, PartialEq, Eq, Hash)]
pub struct ModuleScope {
    entries: Vec<ScopeEntry>,
}

impl View for ModuleScope {
    type V = Seq<ScopeEntryView>;

    closed spec fn view(&self) -> Seq<ScopeEntryView> {
        self.entries.deep_view()
    }
}

/// The entries for those of `items` that declare a name, in their order.
pub open spec fn scope_entries(items: Seq<SyntaxItemView>) -> Seq<ScopeEntryView>
    decreases items.len(),
{
    if items.len() == 0 {
        Seq::empty()
    } else {
        let before = scope_entries(items.drop_last());
        match items.last().name {
            Some(name) => before.push(ScopeEntryView { name, range: items.last().range }),
            None => before,
        }
    }
}

impl ModuleScope {
    /// The scope that `items` make up.
    pub fn new(items: &Vec<SyntaxItem>) -> (scope: Self)
        ensures
            scope@ == scope_entries(items.deep_view()),
    {
        let mut entries: Vec<ScopeEntry> = Vec::new();
        let mut at: usize = 0;
        while at < items.len()
            invariant
                at <= items.len(),
                entries.deep_view() == scope_entries(items.deep_view().take(at as int)),
            decreases items.len() - at,
        {
            let item = &items[at];
            proof {
                let upto = items.deep_view().take(at + 1);
                assert(upto.drop_last() =~= items.deep_view().take(at as int));
                assert(upto.last() == item.deep_view());
            }
            let ghost before = entries.deep_view();
            match &item.name {
                Some(name) => {
                    let entry = ScopeEntry { name: name.clone(), range: item.range };
                    entries.push(entry);
                    assert(entries.deep_view() =~= before.push(entry.deep_view()));
                },
                None => {},
            }
            at = at + 1;
        }
        assert(items.deep_view().take(at as int) =~= items.deep_view());
        ModuleScope { entries }
    }

    /// The entries, in source order.
    pub fn entries(&self) -> (entries: &Vec<ScopeEntry>)
        ensures
            entries.deep_view() == self@,
    {
        &self.entries
    }
}

/// The scope of the module `module_id` in the tree of the source root
/// `source_root_id`: the names that the items of the module's source
/// declare; unless the probe `canceled` says that the query is canceled.
///
/// The probe is asked as the query for the tree asks it, and the tree is
/// memoized as that query memoizes it. The source root must be known to
/// `db`, and the module must be one of its tree.
pub fn module_scope_unless<R: FileResolver, C: Fn() -> bool>(
    db: &mut Snapshot<R>,
    canceled: &C,
    source_root_id: SourceRootId,
    module_id: ModuleId,
) -> (res: Cancelable<Arc<ModuleScope>>)
    requires
        old(db).wf(),
        old(db).source_roots().contains_key(source_root_id),
        module_id.0 < old(db).tree_of(source_root_id).mods.len(),
        call_requires(*canceled, ()),
    ensures
        final(db).wf(),
        final(db).same_inputs(old(db)),
        final(db).remembers(old(db)),
        (forall|said: bool| call_ensures(*canceled, (), said) ==> said) ==> res is Err,
        res is Err ==> call_ensures(*canceled, (), true) && final(db).memoized_trees() == old(
            db,
        ).memoized_trees(),
        res matches Ok(scope) ==> {
            &&& call_ensures(*canceled, (), false)
            &&& scope@ == old(db).scope_of(
                old(db).tree_of(source_root_id).mods[module_id.0 as int].source,
            )
            &&& final(db).memoized_trees() == old(db).memoized_trees().insert(
                source_root_id,
                old(db).tree_of(source_root_id),
            )
        },
{
    let tree = match module_tree_unless(db, canceled, source_root_id) {
        Err(canceled) => {
            return Err(canceled);
        },
        Ok(tree) => tree,
    };
    let source = tree.module(module_id).source;
    let items = match db.file_syntax(source.file_id()) {
        Some(file_items) => source_items(file_items, source),
        None => {
            let none: Vec<SyntaxItem> = Vec::new();
            assert(none.deep_view() =~= Seq::empty());
            source_items(&none, source)
        },
    };
    Ok(Arc::new(ModuleScope::new(&items)))
}

/// The scope of the module `module_id` in the tree of the source root
/// `source_root_id`: the names that the items of the module's source
/// declare.
///
/// The query is canceled exactly if `clock` has moved past the revision of
/// `db`. The source root must be known to `db`, and the module must be one
/// of its tree.
pub fn module_scope<R: FileResolver>(
    db: &mut Snapshot<R>,
    clock: &RevisionClock,
    source_root_id: SourceRootId,
    module_id: ModuleId,
) -> (res: Cancelable<Arc<ModuleScope>>)
    requires
        old(db).wf(),
        old(db).source_roots().contains_key(source_root_id),
        module_id.0 < old(db).tree_of(source_root_id).mods.len(),
    ensures
        final(db).wf(),
        final(db).same_inputs(old(db)),
        final(db).remembers(old(db)),
        res is Err <==> is_stale(clock@, old(db).revision()),
        res is Err ==> final(db).memoized_trees() == old(db).memoized_trees(),
        res matches Ok(scope) ==> {
            &&& scope@ == old(db).scope_of(
                old(db).tree_of(source_root_id).mods[module_id.0 as int].source,
            )
            &&& final(db).memoized_trees() == old(db).memoized_trees().insert(
                source_root_id,
                old(db).tree_of(source_root_id),
            )
        },
{
    let started_at = db.pinned_revision();
    let canceled = || -> (stale: bool)
        ensures
            stale == is_stale(clock@, started_at),
        { clock.is_canceled(started_at) };
    module_scope_unless(db, &canceled, source_root_id, module_id)
}

/// The scope of the module `module_id` in the tree of the source root
/// `source_root_id`, if `db` knows the source root and its tree has the
/// module; `None` if not.
///
/// The query is canceled exactly if `clock` has moved past the revision of
/// `db`.
pub fn find_module_scope<R: FileResolver>(
    db: &mut Snapshot<R>,
    clock: &RevisionClock,
    source_root_id: SourceRootId,
    module_id: ModuleId,
) -> (res: Cancelable<Option<Arc<ModuleScope>>>)
    requires
        old(db).wf(),
    ensures
        final(db).wf(),
        final(db).same_inputs(old(db)),
        final(db).remembers(old(db)),
        res is Err <==> is_stale(clock@, old(db).revision()),
        res is Err ==> final(db).memoized_trees() == old(db).memoized_trees(),
        res is Ok ==> final(db).memoized_trees() == (if old(db).source_roots().contains_key(
            source_root_id,
        ) {
            old(db).memoized_trees().insert(source_root_id, old(db).tree_of(source_root_id))
        } else {
            old(db).memoized_trees()
        }),
        res matches Ok(found) ==> {
            &&& found is Some <==> old(db).source_roots().contains_key(source_root_id)
                && module_id.0 < old(db).tree_of(source_root_id).mods.len()
            &&& found matches Some(scope) ==> scope@ == old(db).scope_of(
                old(db).tree_of(source_root_id).mods[module_id.0 as int].source,
            )
        },
{
    match db.check_canceled(clock) {
        Err(canceled) => {
            return Err(canceled);
        },
        Ok(()) => {},
    }
    if db.source_root(source_root_id).is_none() {
        return Ok(None);
    }
    let tree = match module_tree(db, clock, source_root_id) {
        Err(canceled) => {
            return Err(canceled);
        },
        Ok(tree) => tree,
    };
    if module_id.0 >= tree.mods().len() {
        return Ok(None);
    }
    match module_scope(db, clock, source_root_id, module_id) {
        Err(canceled) => Err(canceled),
        Ok(scope) => Ok(Some(scope)),
    }
}

} // verus!
