//! Where the content of a module lives, and the submodules that a piece of
//! syntax declares.

use crate::cancel::{check_canceled, is_stale, Cancelable, RevisionClock};
use crate::db::{share, Snapshot};
use crate::fx::SourceKey;
use crate::input::{FileId, FileResolver};
use crate::syntax::{ItemKind, SyntaxItem, SyntaxItemView, TextSpan};
use std::sync::Arc;
use vstd::prelude::*;

verus! {

/// The place of a module's content: a whole file, or the body of a module
/// item that stands at some range of a file.
#[derive(Clone, Copy, Debug, PartialEq, Eq, Structural, Hash)]
pub enum ModuleSource {
    SourceFile(FileId),
    Inline(FileId, TextSpan),
}

impl ModuleSource {
    /// The key that stands for this source in a hash set. Different sources
    /// have different keys.
    pub open spec fn key(self) -> SourceKey {
        match self {
            ModuleSource::SourceFile(file_id) => (0u8, file_id.0, 0u32, 0u32),
            ModuleSource::Inline(file_id, range) => (1u8, file_id.0, range.start, range.end),
        }
    }

    /// The key that stands for this source in a memo table. Different
    /// sources have different keys.
    pub open spec fn memo_key(self) -> u128 {
        match self {
            ModuleSource::SourceFile(file_id) => file_id.0 as u128,
            ModuleSource::Inline(file_id, range) => pack(file_id.0, range.start, range.end),
        }
    }

    /// The file that holds the module's text.
    pub open spec fn file(self) -> FileId {
        match self {
            ModuleSource::SourceFile(file_id) => file_id,
            ModuleSource::Inline(file_id, _) => file_id,
        }
    }

    /// The source of the module item that stands at `range` in `file_id`.
    pub fn new_inline(file_id: FileId, range: TextSpan) -> (source: Self)
        ensures
            source == ModuleSource::Inline(file_id, range),
    {
        ModuleSource::Inline(file_id, range)
    }

    /// The file, if the source is a whole file.
    pub fn as_file(self) -> (file: Option<FileId>)
        ensures
            file == (match self {
                ModuleSource::SourceFile(file_id) => Some(file_id),
                ModuleSource::Inline(..) => None,
            }),
    {
        match self {
            ModuleSource::SourceFile(file_id) => Some(file_id),
            ModuleSource::Inline(..) => None,
        }
    }

    /// The file that holds the module's text.
    pub fn file_id(self) -> (file: FileId)
        ensures
            file == self.file(),
    {
        match self {
            ModuleSource::SourceFile(file_id) => file_id,
            ModuleSource::Inline(file_id, _) => file_id,
        }
    }

    /// The key that stands for this source in a memo table.
    pub fn query_key(self) -> (key: u128)
        ensures
            key == self.memo_key(),
    {
        match self {
            ModuleSource::SourceFile(file_id) => file_id.0 as u128,
            ModuleSource::Inline(file_id, range) => (1u128 << 96) | ((file_id.0 as u128) << 64) | ((
            range.start as u128) << 32) | (range.end as u128),
        }
    }

    /// The key that stands for this source in a hash set.
    pub fn hash_key(self) -> (key: SourceKey)
        ensures
            key == self.key(),
    {
        match self {
            ModuleSource::SourceFile(file_id) => (0u8, file_id.0, 0u32, 0u32),
            ModuleSource::Inline(file_id, range) => (1u8, file_id.0, range.start, range.end),
        }
    }
}

/// Three 32-bit numbers side by side in one number, under a leading one.
pub open spec fn pack(file: u32, start: u32, end: u32) -> u128 {
    (1u128 << 96) | ((file as u128) << 64) | ((start as u128) << 32) | (end as u128)
}

/// Two packed triples are equal only if their parts are, and no packed
/// triple fits in 32 bits.
pub(crate) proof fn lemma_pack_injective(a: (u32, u32, u32), b: (u32, u32, u32))
    ensures
        pack(a.0, a.1, a.2) > u32::MAX,
        pack(a.0, a.1, a.2) == pack(b.0, b.1, b.2) ==> a == b,
{
    let (a0, a1, a2) = a;
    let (b0, b1, b2) = b;
    assert((1u128 << 96) | ((a0 as u128) << 64) | ((a1 as u128) << 32) | (a2 as u128)
        > 0xffff_ffffu128) by (bit_vector);
    assert((1u128 << 96) | ((a0 as u128) << 64) | ((a1 as u128) << 32) | (a2 as u128) == (1u128
        << 96) | ((b0 as u128) << 64) | ((b1 as u128) << 32) | (b2 as u128) ==> a0 == b0 && a1
        == b1 && a2 == b2) by (bit_vector);
}

/// Two sources with the same memo key are the same source.
pub proof fn lemma_memo_key_injective(a: ModuleSource, b: ModuleSource)
    requires
        a.memo_key() == b.memo_key(),
    ensures
        a == b,
{
    match (a, b) {
        (ModuleSource::SourceFile(_), ModuleSource::SourceFile(_)) => {},
        (ModuleSource::Inline(fa, ra), ModuleSource::Inline(fb, rb)) => {
            lemma_pack_injective((fa.0, ra.start, ra.end), (fb.0, rb.start, rb.end));
        },
        (ModuleSource::SourceFile(_), ModuleSource::Inline(fb, rb)) => {
            lemma_pack_injective((fb.0, rb.start, rb.end), (fb.0, rb.start, rb.end));
        },
        (ModuleSource::Inline(fa, ra), ModuleSource::SourceFile(_)) => {
            lemma_pack_injective((fa.0, ra.start, ra.end), (fa.0, ra.start, ra.end));
        },
    }
}

/// Two sources with the same key are the same source.
pub proof fn lemma_key_injective(a: ModuleSource, b: ModuleSource)
    requires
        a.key() == b.key(),
    ensures
        a == b,
{
}

/// A module item that declares a name.
#[derive(Clone, Debug, PartialEq, Eq, Hash)]
pub struct NamedModule {
    pub name: String,
    pub has_semi: bool,
    pub range: TextSpan,
}

/// The mathematical value of a `NamedModule`.
pub struct NamedModuleView {
    pub name: Seq<char>,
    pub has_semi: bool,
    pub range: TextSpan,
}

impl DeepView for NamedModule {
    type V = NamedModuleView;

    open spec fn deep_view(&self) -> NamedModuleView {
        NamedModuleView { name: self.name@, has_semi: self.has_semi, range: self.range }
    }
}

/// A submodule that a piece of syntax declares: a declaration, whose
/// content lives in another file, or a definition with its body in place.
#[derive(Clone, Debug, PartialEq, Eq, Hash)]
pub enum Submodule {
    Declaration(String),
    Definition(String, ModuleSource),
}

/// The mathematical value of a `Submodule`.
pub enum SubmoduleView {
    Declaration(Seq<char>),
    Definition(Seq<char>, ModuleSource),
}

impl SubmoduleView {
    /// The name that the submodule is declared under.
    pub open spec fn name(self) -> Seq<char> {
        match self {
            SubmoduleView::Declaration(name) => name,
            SubmoduleView::Definition(name, _) => name,
        }
    }
}

impl DeepView for Submodule {
    type V = SubmoduleView;

    open spec fn deep_view(&self) -> SubmoduleView {
        match self {
            Submodule::Declaration(name) => SubmoduleView::Declaration(name@),
            Submodule::Definition(name, source) => SubmoduleView::Definition(name@, *source),
        }
    }
}

impl Submodule {
    /// The name that the submodule is declared under.
    pub fn name(&self) -> (name: &String)
        ensures
            name@ == self.deep_view().name(),
    {
        match self {
            Submodule::Declaration(name) => name,
            Submodule::Definition(name, _) => name,
        }
    }
}

/// The module items among `items` that declare a name, in their order.
pub open spec fn named_modules(items: Seq<SyntaxItemView>) -> Seq<NamedModuleView>
    decreases items.len(),
{
    if items.len() == 0 {
        Seq::empty()
    } else {
        let before = named_modules(items.drop_last());
        match (items.last().kind, items.last().name) {
            (ItemKind::Module { has_semi }, Some(name)) => before.push(
                NamedModuleView { name, has_semi, range: items.last().range },
            ),
            _ => before,
        }
    }
}

/// The submodule that a module item of `file_id` stands for: a declaration
/// if it ends in a semicolon, a definition in place otherwise.
pub open spec fn submodule_of(file_id: FileId, module: NamedModuleView) -> SubmoduleView {
    if module.has_semi {
        SubmoduleView::Declaration(module.name)
    } else {
        SubmoduleView::Definition(module.name, ModuleSource::Inline(file_id, module.range))
    }
}

/// The submodules that `items`, found in `file_id`, declare, in their order.
pub open spec fn declared_submodules(file_id: FileId, items: Seq<SyntaxItemView>) -> Seq<
    SubmoduleView,
> {
    named_modules(items).map_values(|module: NamedModuleView| submodule_of(file_id, module))
}

impl ModuleSource {
    /// The body that the items of this source stand in: none for a whole
    /// file, whose items stand at the top, and the module item's own range
    /// for an inline module.
    pub open spec fn body(self) -> Option<TextSpan> {
        match self {
            ModuleSource::SourceFile(_) => None,
            ModuleSource::Inline(_, range) => Some(range),
        }
    }

    /// The body that the items of this source stand in.
    pub fn body_range(self) -> (body: Option<TextSpan>)
        ensures
            body == self.body(),
    {
        match self {
            ModuleSource::SourceFile(_) => None,
            ModuleSource::Inline(_, range) => Some(range),
        }
    }
}

/// The items that `source` holds, picked out of the items of its file: for
/// a whole file those at the top, for an inline module those that stand
/// directly in its body, in their order. An inline module without a body,
/// or a range at which no module item stands, holds none.
pub open spec fn items_in(file_items: Seq<SyntaxItemView>, source: ModuleSource) -> Seq<
    SyntaxItemView,
>
    decreases file_items.len(),
{
    if file_items.len() == 0 {
        Seq::empty()
    } else {
        let before = items_in(file_items.drop_last(), source);
        if file_items.last().within == source.body() {
            before.push(file_items.last())
        } else {
            before
        }
    }
}

/// The submodules that `source` declares if its file has the given items.
pub open spec fn submodules_in(file_items: Seq<SyntaxItemView>, source: ModuleSource) -> Seq<
    SubmoduleView,
> {
    declared_submodules(source.file(), items_in(file_items, source))
}

/// Picks the items that `source` holds out of the items of its file.
pub fn source_items(file_items: &Vec<SyntaxItem>, source: ModuleSource) -> (items: Vec<SyntaxItem>)
    ensures
        items.deep_view() == items_in(file_items.deep_view(), source),
{
    let body = source.body_range();
    let mut items: Vec<SyntaxItem> = Vec::new();
    let mut at: usize = 0;
    while at < file_items.len()
        invariant
            at <= file_items.len(),
            body == source.body(),
            items.deep_view() == items_in(file_items.deep_view().take(at as int), source),
        decreases file_items.len() - at,
    {
        let item = &file_items[at];
        proof {
            let upto = file_items.deep_view().take(at + 1);
            assert(upto.drop_last() =~= file_items.deep_view().take(at as int));
            assert(upto.last() == item.deep_view());
        }
        let ghost before = items.deep_view();
        let held = match (item.within, body) {
            (None, None) => true,
            (Some(a), Some(b)) => a.start == b.start && a.end == b.end,
            _ => false,
        };
        if held {
            let copy = item.duplicate();
            items.push(copy);
            assert(items.deep_view() =~= before.push(copy.deep_view()));
        }
        at = at + 1;
    }
    assert(file_items.deep_view().take(at as int) =~= file_items.deep_view());
    items
}

/// Picks the module items that declare a name out of `items`.
pub fn modules(items: &Vec<SyntaxItem>) -> (found: Vec<NamedModule>)
    ensures
        found.deep_view() == named_modules(items.deep_view()),
{
    let mut found: Vec<NamedModule> = Vec::new();
    let mut at: usize = 0;
    while at < items.len()
        invariant
            at <= items.len(),
            found.deep_view() == named_modules(items.deep_view().take(at as int)),
        decreases items.len() - at,
    {
        let item = &items[at];
        proof {
            let upto = items.deep_view().take(at + 1);
            assert(upto.drop_last() =~= items.deep_view().take(at as int));
            assert(upto.last() == item.deep_view());
        }
        let ghost before = found.deep_view();
        match (&item.kind, &item.name) {
            (ItemKind::Module { has_semi }, Some(name)) => {
                let module = NamedModule { name: name.clone(), has_semi: *has_semi, range: item.range };
                found.push(module);
                assert(found.deep_view() =~= before.push(module.deep_view()));
            },
            _ => {},
        }
        at = at + 1;
    }
    assert(items.deep_view().take(at as int) =~= items.deep_view());
    found
}

/// Turns the module items that `items` holds into submodules of `file_id`.
pub fn collect_submodules(file_id: FileId, items: &Vec<SyntaxItem>) -> (subs: Vec<Submodule>)
    ensures
        subs.deep_view() == declared_submodules(file_id, items.deep_view()),
{
    let found = modules(items);
    let mut subs: Vec<Submodule> = Vec::new();
    let mut at: usize = 0;
    while at < found.len()
        invariant
            at <= found.len(),
            subs@.len() == at,
            forall|k: int|
                0 <= k < at ==> (#[trigger] subs@[k]).deep_view() == submodule_of(
                    file_id,
                    found@[k].deep_view(),
                ),
        decreases found.len() - at,
    {
        let module = &found[at];
        let sub = if module.has_semi {
            Submodule::Declaration(module.name.clone())
        } else {
            Submodule::Definition(module.name.clone(), ModuleSource::new_inline(file_id, module.range))
        };
        subs.push(sub);
        at = at + 1;
    }
    assert(subs.deep_view() =~= declared_submodules(file_id, items.deep_view()));
    subs
}

/// The submodules that `source` declares, in source order: from the memo
/// table of `db` if they are there, and computed from the items of the
/// file and memoized if they are not.
pub(crate) fn submodules_now<R: FileResolver>(db: &mut Snapshot<R>, source: ModuleSource) -> (subs:
    Arc<Vec<Submodule>>)
    requires
        old(db).wf(),
    ensures
        final(db).wf(),
        final(db).grown_from(old(db)),
        subs.deep_view() == old(db).submodules_of(source),
        final(db).memoized_submodules() == old(db).memoized_submodules().insert(
            source,
            subs.deep_view(),
        ),
{
    proof {
        db.lemma_memo_is_right();
    }
    match db.cached_submodules(source) {
        Some(subs) => {
            assert(db.memoized_submodules() =~= db.memoized_submodules().insert(
                source,
                subs.deep_view(),
            ));
            return subs;
        },
        None => {},
    }
    let file_id = source.file_id();
    let items = match db.file_syntax(file_id) {
        Some(file_items) => source_items(file_items, source),
        None => {
            let none: Vec<SyntaxItem> = Vec::new();
            assert(none.deep_view() =~= Seq::empty());
            source_items(&none, source)
        },
    };
    let subs = Arc::new(collect_submodules(file_id, &items));
    db.remember_submodules(source, share(&subs));
    subs
}

/// The submodules that `source` declares, in source order, unless the
/// probe `canceled` says that the query is canceled.
///
/// The probe is asked once, before anything else is done; if it says yes,
/// nothing is done. Otherwise the answer of the query is taken from the
/// memo table of `db` if it is there, and computed from the items of the
/// file if it is not; it is memoized from then on.
pub fn submodules_unless<R: FileResolver, C: Fn() -> bool>(
    db: &mut Snapshot<R>,
    canceled: &C,
    source: ModuleSource,
) -> (res: Cancelable<Arc<Vec<Submodule>>>)
    requires
        old(db).wf(),
        call_requires(*canceled, ()),
    ensures
        final(db).wf(),
        final(db).same_inputs(old(db)),
        final(db).grown_from(old(db)),
        (forall|said: bool| call_ensures(*canceled, (), said) ==> said) ==> res is Err,
        res is Err ==> call_ensures(*canceled, (), true) && final(db).memoized_submodules() == old(
            db,
        ).memoized_submodules(),
        res matches Ok(subs) ==> {
            &&& call_ensures(*canceled, (), false)
            &&& subs.deep_view() == old(db).submodules_of(source)
            &&& final(db).memoized_submodules() == old(db).memoized_submodules().insert(
                source,
                subs.deep_view(),
            )
        },
{
    match check_canceled(canceled()) {
        Err(canceled) => Err(canceled),
        Ok(()) => Ok(submodules_now(db, source)),
    }
}

/// The submodules that `source` declares, in source order. They are
/// memoized from then on.
///
/// The query is canceled exactly if `clock` has moved past the revision of
/// `db`, and then nothing is done.
pub fn submodules<R: FileResolver>(
    db: &mut Snapshot<R>,
    clock: &RevisionClock,
    source: ModuleSource,
) -> (res: Cancelable<Arc<Vec<Submodule>>>)
    requires
        old(db).wf(),
    ensures
        final(db).wf(),
        final(db).same_inputs(old(db)),
        final(db).grown_from(old(db)),
        res is Err <==> is_stale(clock@, old(db).revision()),
        res is Err ==> final(db).memoized_submodules() == old(db).memoized_submodules(),
        res matches Ok(subs) ==> {
            &&& subs.deep_view() == old(db).submodules_of(source)
            &&& final(db).memoized_submodules() == old(db).memoized_submodules().insert(
                source,
                subs.deep_view(),
            )
        },
{
    let started_at = db.pinned_revision();
    let canceled = || -> (stale: bool)
        ensures
            stale == is_stale(clock@, started_at),
        { clock.is_canceled(started_at) };
    submodules_unless(db, &canceled, source)
}

} // verus!
