//! The module tree: two arenas, one of modules and one of the links that
//! declare them, which refer to each other by index.

use crate::resolve::{Problem, ProblemView};
use crate::source::ModuleSource;
use vstd::prelude::*;

verus! {

/// The index of a module in the tree that owns it.
#[derive(Clone, Copy, Debug, PartialEq, Eq, Structural, Hash, PartialOrd, Ord)]
pub struct ModuleId(pub usize);

/// The index of a link in the tree that owns it.
#[derive(Clone, Copy, Debug, PartialEq, Eq, Structural, Hash, PartialOrd, Ord)]
pub struct LinkId(pub usize);

/// One module: where its content lives, the link that declares it, if any
/// does, and the links that it declares itself, in source order.
#[derive(Clone, Debug, PartialEq, Eq, Hash)]
pub struct ModuleData {
    pub source: ModuleSource,
    pub parent: Option<LinkId>,
    pub children: Vec<LinkId>,
}

/// The mathematical value of a `ModuleData`.
pub struct ModuleDataView {
    pub source: ModuleSource,
    pub parent: Option<LinkId>,
    pub children: Seq<LinkId>,
}

impl DeepView for ModuleData {
    type V = ModuleDataView;

    open spec fn deep_view(&self) -> ModuleDataView {
        ModuleDataView { source: self.source, parent: self.parent, children: self.children@ }
    }
}

/// One declaration: its name, the module that holds it, the modules that
/// it leads to (none if it is unresolved, several if it is ambiguous), and
/// what is wrong with it, if anything.
#[derive(Clone, Debug, PartialEq, Eq, Hash)]
pub struct LinkData {
    pub name: String,
    pub owner: ModuleId,
    pub points_to: Vec<ModuleId>,
    pub problem: Option<Problem>,
}

/// The mathematical value of a `LinkData`.
pub struct LinkDataView {
    pub name: Seq<char>,
    pub owner: ModuleId,
    pub points_to: Seq<ModuleId>,
    pub problem: Option<ProblemView>,
}

impl DeepView for LinkData {
    type V = LinkDataView;

    open spec fn deep_view(&self) -> LinkDataView {
        LinkDataView {
            name: self.name@,
            owner: self.owner,
            points_to: self.points_to@,
            problem: self.problem.deep_view(),
        }
    }
}

/// The mathematical value of a `ModuleTree`.
pub struct TreeView {
    pub mods: Seq<ModuleDataView>,
    pub links: Seq<LinkDataView>,
}

impl TreeView {
    /// The tree without modules.
    pub open spec fn empty() -> TreeView {
        TreeView { mods: Seq::empty(), links: Seq::empty() }
    }

    /// The tree with one more module, which has no children yet.
    pub open spec fn push_mod(self, source: ModuleSource, parent: Option<LinkId>) -> TreeView {
        TreeView {
            mods: self.mods.push(ModuleDataView { source, parent, children: Seq::empty() }),
            links: self.links,
        }
    }

    /// The tree with one more link, declared by `owner` under `name`, which
    /// leads nowhere yet. The link becomes the last child of its owner.
    pub open spec fn push_link(self, name: Seq<char>, owner: ModuleId) -> TreeView {
        let id = LinkId(self.links.len() as usize);
        let holder = self.mods[owner.0 as int];
        TreeView {
            mods: self.mods.update(
                owner.0 as int,
                ModuleDataView { children: holder.children.push(id), ..holder },
            ),
            links: self.links.push(
                LinkDataView { name, owner, points_to: Seq::empty(), problem: None },
            ),
        }
    }

    /// The tree in which `module` is declared by `link`.
    pub open spec fn set_parent(self, module: ModuleId, link: LinkId) -> TreeView {
        TreeView {
            mods: self.mods.update(
                module.0 as int,
                ModuleDataView { parent: Some(link), ..self.mods[module.0 as int] },
            ),
            links: self.links,
        }
    }

    /// The tree in which `link` leads to `points_to` and carries `problem`.
    pub open spec fn set_link(
        self,
        link: LinkId,
        points_to: Seq<ModuleId>,
        problem: Option<ProblemView>,
    ) -> TreeView {
        TreeView {
            mods: self.mods,
            links: self.links.update(
                link.0 as int,
                LinkDataView { points_to, problem, ..self.links[link.0 as int] },
            ),
        }
    }

    /// Every index that the tree holds refers to an element of the tree.
    pub open spec fn wf(self) -> bool {
        &&& forall|m: int, c: int|
            0 <= m < self.mods.len() && 0 <= c < self.mods[m].children.len() ==> (
            #[trigger] self.mods[m].children[c]).0 < self.links.len()
        &&& forall|m: int|
            0 <= m < self.mods.len() ==> (#[trigger] self.mods[m].parent matches Some(link)
                ==> link.0 < self.links.len())
        &&& forall|l: int| 0 <= l < self.links.len() ==> (#[trigger] self.links[l]).owner.0 < self.mods.len()
        &&& forall|l: int, p: int|
            0 <= l < self.links.len() && 0 <= p < self.links[l].points_to.len() ==> (
            #[trigger] self.links[l].points_to[p]).0 < self.mods.len()
    }
}

impl TreeView {
    /// States that some module of the tree has the source `source`.
    pub open spec fn has_module(self, source: ModuleSource) -> bool {
        exists|m: int| 0 <= m < self.mods.len() && (#[trigger] self.mods[m]).source == source
    }

    /// States that no two modules of the tree have the same source.
    pub open spec fn distinct_sources(self) -> bool {
        forall|a: int, b: int|
            0 <= a < b < self.mods.len() ==> (#[trigger] self.mods[a]).source != (
            #[trigger] self.mods[b]).source
    }

    /// States that every module without a parent is the module of a whole
    /// file: an inline module has the link of its definition as its parent.
    pub open spec fn rooted_in_files(self) -> bool {
        forall|m: int|
            0 <= m < self.mods.len() && (#[trigger] self.mods[m]).parent is None
                ==> self.mods[m].source is SourceFile
    }

    /// States that `other` has the same modules with the same sources,
    /// whatever else may differ.
    pub open spec fn same_sources(self, other: TreeView) -> bool {
        &&& self.mods.len() == other.mods.len()
        &&& forall|m: int|
            0 <= m < self.mods.len() ==> (#[trigger] self.mods[m]).source == other.mods[m].source
    }
}

/// Trees with the same sources have a module for the same sources, and
/// their sources are distinct alike.
pub(crate) proof fn lemma_same_sources(a: TreeView, b: TreeView)
    requires
        a.same_sources(b),
    ensures
        forall|source: ModuleSource| a.has_module(source) <==> b.has_module(source),
        a.distinct_sources() <==> b.distinct_sources(),
{
    assert forall|source: ModuleSource| a.has_module(source) <==> b.has_module(source) by {
        if a.has_module(source) {
            let m = choose|m: int| 0 <= m < a.mods.len() && (#[trigger] a.mods[m]).source == source;
            assert(b.mods[m].source == source);
        }
        if b.has_module(source) {
            let m = choose|m: int| 0 <= m < b.mods.len() && (#[trigger] b.mods[m]).source == source;
            assert(a.mods[m].source == source);
        }
    }
    if a.distinct_sources() {
        assert forall|x: int, y: int| 0 <= x < y < b.mods.len() implies (#[trigger] b.mods[x]).source
            != (#[trigger] b.mods[y]).source by {
            assert(a.mods[x].source != a.mods[y].source);
        }
    }
    if b.distinct_sources() {
        assert forall|x: int, y: int| 0 <= x < y < a.mods.len() implies (#[trigger] a.mods[x]).source
            != (#[trigger] a.mods[y]).source by {
            assert(b.mods[x].source != b.mods[y].source);
        }
    }
}

/// A well-formed tree stays well formed when a module is added under a
/// link of the tree, or under none; the sources that have a module are
/// then those that had one and the new one, and they stay distinct if the
/// new one had no module.
pub(crate) proof fn lemma_push_mod(tree: TreeView, source: ModuleSource, parent: Option<LinkId>)
    requires
        tree.wf(),
        parent matches Some(link) ==> link.0 < tree.links.len(),
    ensures
        tree.push_mod(source, parent).wf(),
        forall|other: ModuleSource|
            tree.push_mod(source, parent).has_module(other) <==> (other == source
                || tree.has_module(other)),
        tree.distinct_sources() && !tree.has_module(source) ==> tree.push_mod(
            source,
            parent,
        ).distinct_sources(),
{
    let grown = tree.push_mod(source, parent);
    assert forall|other: ModuleSource|
        grown.has_module(other) <==> (other == source || tree.has_module(other)) by {
        if grown.has_module(other) {
            let m = choose|m: int|
                0 <= m < grown.mods.len() && (#[trigger] grown.mods[m]).source == other;
            if m < tree.mods.len() {
                assert(tree.mods[m].source == other);
            }
        }
        if tree.has_module(other) {
            let m = choose|m: int| 0 <= m < tree.mods.len() && (#[trigger] tree.mods[m]).source == other;
            assert(grown.mods[m].source == other);
        }
        if other == source {
            assert(grown.mods[tree.mods.len() as int].source == other);
        }
    }
    if tree.distinct_sources() && !tree.has_module(source) {
        assert forall|a: int, b: int| 0 <= a < b < grown.mods.len() implies (
        #[trigger] grown.mods[a]).source != (#[trigger] grown.mods[b]).source by {
            if b < tree.mods.len() {
                assert(tree.mods[a].source != tree.mods[b].source);
            } else {
                assert(tree.mods[a].source != source);
            }
        }
    }
    assert forall|m: int, c: int|
        0 <= m < grown.mods.len() && 0 <= c < grown.mods[m].children.len() implies (
    #[trigger] grown.mods[m].children[c]).0 < grown.links.len() by {
        assert(grown.mods[m].children[c] == tree.mods[m].children[c]);
    }
    assert forall|m: int| 0 <= m < grown.mods.len() implies (#[trigger] grown.mods[m].parent matches Some(
        link,
    ) ==> link.0 < grown.links.len()) by {
        if m < tree.mods.len() {
            assert(grown.mods[m].parent == tree.mods[m].parent);
        }
    }
}

/// A well-formed tree stays well formed, with the same sources, when one of
/// its modules declares a new link.
pub(crate) proof fn lemma_push_link(tree: TreeView, name: Seq<char>, owner: ModuleId)
    requires
        tree.wf(),
        owner.0 < tree.mods.len(),
        tree.links.len() < usize::MAX,
    ensures
        tree.push_link(name, owner).wf(),
        tree.push_link(name, owner).same_sources(tree),
{
    let grown = tree.push_link(name, owner);
    assert forall|m: int, c: int|
        0 <= m < grown.mods.len() && 0 <= c < grown.mods[m].children.len() implies (
    #[trigger] grown.mods[m].children[c]).0 < grown.links.len() by {
        if m == owner.0 && c == tree.mods[m].children.len() {
        } else {
            assert(grown.mods[m].children[c] == tree.mods[m].children[c]);
        }
    }
    assert forall|m: int| 0 <= m < grown.mods.len() implies (#[trigger] grown.mods[m].parent matches Some(
        link,
    ) ==> link.0 < grown.links.len()) by {
        assert(grown.mods[m].parent == tree.mods[m].parent);
    }
    assert forall|l: int| 0 <= l < grown.links.len() implies (#[trigger] grown.links[l]).owner.0
        < grown.mods.len() by {
        if l < tree.links.len() {
            assert(grown.links[l] == tree.links[l]);
        }
    }
    assert forall|l: int, p: int|
        0 <= l < grown.links.len() && 0 <= p < grown.links[l].points_to.len() implies (
    #[trigger] grown.links[l].points_to[p]).0 < grown.mods.len() by {
        assert(grown.links[l] == tree.links[l]);
    }
}

/// A well-formed tree stays well formed, with the same sources, when one of
/// its links becomes the parent of one of its modules.
pub(crate) proof fn lemma_set_parent(tree: TreeView, module: ModuleId, link: LinkId)
    requires
        tree.wf(),
        module.0 < tree.mods.len(),
        link.0 < tree.links.len(),
    ensures
        tree.set_parent(module, link).wf(),
        tree.set_parent(module, link).same_sources(tree),
{
    let changed = tree.set_parent(module, link);
    assert forall|m: int, c: int|
        0 <= m < changed.mods.len() && 0 <= c < changed.mods[m].children.len() implies (
    #[trigger] changed.mods[m].children[c]).0 < changed.links.len() by {
        assert(changed.mods[m].children[c] == tree.mods[m].children[c]);
    }
    assert forall|m: int| 0 <= m < changed.mods.len() implies (
    #[trigger] changed.mods[m].parent matches Some(l) ==> l.0 < changed.links.len()) by {
        if m != module.0 {
            assert(changed.mods[m].parent == tree.mods[m].parent);
        }
    }
}

/// A well-formed tree stays well formed, with the same sources, when one of
/// its links is made to lead to modules of the tree.
pub(crate) proof fn lemma_set_link(
    tree: TreeView,
    link: LinkId,
    points_to: Seq<ModuleId>,
    problem: Option<ProblemView>,
)
    requires
        tree.wf(),
        link.0 < tree.links.len(),
        forall|p: int| 0 <= p < points_to.len() ==> (#[trigger] points_to[p]).0 < tree.mods.len(),
    ensures
        tree.set_link(link, points_to, problem).wf(),
        tree.set_link(link, points_to, problem).same_sources(tree),
{
    let changed = tree.set_link(link, points_to, problem);
    assert forall|l: int| 0 <= l < changed.links.len() implies (#[trigger] changed.links[l]).owner.0
        < changed.mods.len() by {
        assert(changed.links[l].owner == tree.links[l].owner);
    }
    assert forall|l: int, p: int|
        0 <= l < changed.links.len() && 0 <= p < changed.links[l].points_to.len() implies (
    #[trigger] changed.links[l].points_to[p]).0 < changed.mods.len() by {
        if l != link.0 {
            assert(changed.links[l].points_to[p] == tree.links[l].points_to[p]);
        }
    }
}

impl TreeView {
    /// States that modules and links agree on how they are connected, as
    /// far as the links are concluded. The links in `open` are those that
    /// are still being followed: they lead nowhere yet, but may be the
    /// parent of modules already.
    ///
    /// A module whose parent is a concluded link is among the modules that
    /// the link leads to; a link leads only to modules whose parent it is;
    /// a link is among the children of its owner; and a module owns each
    /// of its children.
    pub open spec fn linked(self, open: Set<LinkId>) -> bool {
        &&& forall|m: int|
            0 <= m < self.mods.len() ==> ((#[trigger] self.mods[m]).parent matches Some(link)
                ==> open.contains(link) || self.links[link.0 as int].points_to.contains(
                ModuleId(m as usize),
            ))
        &&& forall|l: int, p: int|
            0 <= l < self.links.len() && 0 <= p < self.links[l].points_to.len()
                ==> self.mods[(#[trigger] self.links[l].points_to[p]).0 as int].parent == Some(
                LinkId(l as usize),
            )
        &&& forall|l: int|
            0 <= l < self.links.len() ==> self.mods[(#[trigger] self.links[l]).owner.0 as int].children.contains(
            LinkId(l as usize))
        &&& forall|m: int, c: int|
            0 <= m < self.mods.len() && 0 <= c < self.mods[m].children.len()
                ==> self.links[(#[trigger] self.mods[m].children[c]).0 as int].owner == ModuleId(
                m as usize,
            )
        &&& forall|link: LinkId| #[trigger]
            open.contains(link) ==> link.0 < self.links.len()
                && self.links[link.0 as int].points_to.len() == 0
    }

    /// States that `later` came from this tree by building on: the modules
    /// of this tree keep their sources and, once they have one, their
    /// parents; the links of this tree keep their owners and names; and a
    /// link of this tree has become the parent of no module but `fresh`.
    pub open spec fn built_on(self, later: TreeView, fresh: Option<ModuleId>) -> bool {
        &&& self.mods.len() <= later.mods.len()
        &&& self.links.len() <= later.links.len()
        &&& forall|m: int|
            0 <= m < self.mods.len() ==> (#[trigger] later.mods[m]).source == self.mods[m].source
        &&& forall|m: int|
            0 <= m < self.mods.len() && self.mods[m].parent is Some ==> (
            #[trigger] later.mods[m]).parent == self.mods[m].parent
        &&& forall|m: int|
            0 <= m < later.mods.len() ==> ((#[trigger] later.mods[m]).parent matches Some(link)
                ==> link.0 < self.links.len() ==> fresh == Some(ModuleId(m as usize)) || (m
                < self.mods.len() && self.mods[m].parent == Some(link)))
        &&& forall|l: int|
            0 <= l < self.links.len() ==> (#[trigger] later.links[l]).owner == self.links[l].owner
                && later.links[l].name == self.links[l].name
    }

    /// States that `link` is the child of `owner` at the place `at`, and
    /// nowhere else a child.
    pub open spec fn only_place(self, link: LinkId, owner: ModuleId, at: int) -> bool {
        forall|m: int, c: int|
            0 <= m < self.mods.len() && 0 <= c < self.mods[m].children.len() && (
            #[trigger] self.mods[m].children[c]) == link ==> m == owner.0 && c == at
    }

    /// States that `targets` are the modules whose parent is `link`.
    pub open spec fn children_of(self, link: LinkId, targets: Seq<ModuleId>) -> bool {
        &&& forall|p: int|
            0 <= p < targets.len() ==> (#[trigger] targets[p]).0 < self.mods.len()
                && self.mods[targets[p].0 as int].parent == Some(link)
        &&& forall|m: int|
            0 <= m < self.mods.len() && (#[trigger] self.mods[m]).parent == Some(link)
                ==> targets.contains(ModuleId(m as usize))
    }
}

impl TreeView {
    /// States that `other` declares what this tree declares: the modules
    /// have the same sources and the same children, and the links have the
    /// same names.
    pub open spec fn same_declarations(self, other: TreeView) -> bool {
        &&& self.mods.len() == other.mods.len()
        &&& self.links.len() == other.links.len()
        &&& forall|m: int|
            0 <= m < self.mods.len() ==> (#[trigger] other.mods[m]).source == self.mods[m].source
                && other.mods[m].children == self.mods[m].children
        &&& forall|l: int|
            0 <= l < self.links.len() ==> (#[trigger] other.links[l]).name == self.links[l].name
    }

    /// States that the modules of this tree have in `later` the children
    /// that they have in this tree; `owner`, if given, may have others.
    pub open spec fn keeps_children(self, later: TreeView, owner: Option<ModuleId>) -> bool {
        &&& self.mods.len() <= later.mods.len()
        &&& forall|m: int|
            0 <= m < self.mods.len() && owner != Some(ModuleId(m as usize)) ==> (
            #[trigger] later.mods[m]).children == self.mods[m].children
    }
}

/// Keeping children is transitive.
pub(crate) proof fn lemma_keeps_children_twice(
    a: TreeView,
    b: TreeView,
    c: TreeView,
    owner: Option<ModuleId>,
)
    requires
        a.keeps_children(b, owner),
        b.keeps_children(c, owner) || b.keeps_children(c, None),
    ensures
        a.keeps_children(c, owner),
{
    assert forall|m: int|
        0 <= m < a.mods.len() && owner != Some(ModuleId(m as usize)) implies (
    #[trigger] c.mods[m]).children == a.mods[m].children by {
        assert(b.mods[m].children == a.mods[m].children);
    }
}

/// Building on is transitive, as long as the first step brings no module
/// under a link of the start but `fresh`, and the second none at all.
pub(crate) proof fn lemma_built_on_twice(a: TreeView, b: TreeView, c: TreeView, fresh: Option<ModuleId>)
    requires
        a.built_on(b, fresh),
        b.built_on(c, None),
    ensures
        a.built_on(c, fresh),
{
    assert forall|m: int| 0 <= m < a.mods.len() implies (#[trigger] c.mods[m]).source
        == a.mods[m].source by {
        assert(b.mods[m].source == a.mods[m].source);
    }
    assert forall|m: int| 0 <= m < a.mods.len() && a.mods[m].parent is Some implies (
    #[trigger] c.mods[m]).parent == a.mods[m].parent by {
        assert(b.mods[m].parent == a.mods[m].parent);
    }
    assert forall|m: int| 0 <= m < c.mods.len() implies ((#[trigger] c.mods[m]).parent matches Some(
        link,
    ) ==> link.0 < a.links.len() ==> fresh == Some(ModuleId(m as usize)) || (m < a.mods.len()
        && a.mods[m].parent == Some(link))) by {
        if let Some(link) = c.mods[m].parent {
            if link.0 < a.links.len() {
                assert(m < b.mods.len() && b.mods[m].parent == Some(link));
            }
        }
    }
    assert forall|l: int| 0 <= l < a.links.len() implies (#[trigger] c.links[l]).owner
        == a.links[l].owner && c.links[l].name == a.links[l].name by {
        assert(b.links[l].owner == a.links[l].owner);
    }
}

/// Adding a module under an open link, or under none, keeps the tree
/// linked and builds on it with the new module as the fresh one.
pub(crate) proof fn lemma_push_mod_linked(
    tree: TreeView,
    open: Set<LinkId>,
    source: ModuleSource,
    parent: Option<LinkId>,
)
    requires
        tree.wf(),
        tree.linked(open),
        tree.mods.len() < usize::MAX,
        parent matches Some(link) ==> open.contains(link),
    ensures
        tree.push_mod(source, parent).linked(open),
        tree.built_on(tree.push_mod(source, parent), Some(ModuleId(tree.mods.len() as usize))),
{
    let grown = tree.push_mod(source, parent);
    assert forall|m: int| 0 <= m < grown.mods.len() implies ((#[trigger] grown.mods[m]).parent matches Some(
        link,
    ) ==> open.contains(link) || grown.links[link.0 as int].points_to.contains(
        ModuleId(m as usize),
    )) by {
        if m < tree.mods.len() {
            assert(grown.mods[m] == tree.mods[m]);
        }
    }
    assert forall|l: int, p: int|
        0 <= l < grown.links.len() && 0 <= p < grown.links[l].points_to.len() implies grown.mods[(
    #[trigger] grown.links[l].points_to[p]).0 as int].parent == Some(LinkId(l as usize)) by {
        let target = tree.links[l].points_to[p];
        assert(target.0 < tree.mods.len());
        assert(grown.mods[target.0 as int] == tree.mods[target.0 as int]);
    }
    assert forall|l: int| 0 <= l < grown.links.len() implies grown.mods[(
    #[trigger] grown.links[l]).owner.0 as int].children.contains(LinkId(l as usize)) by {
        let owner = tree.links[l].owner;
        assert(owner.0 < tree.mods.len());
        assert(grown.mods[owner.0 as int] == tree.mods[owner.0 as int]);
    }
    assert forall|m: int, c: int|
        0 <= m < grown.mods.len() && 0 <= c < grown.mods[m].children.len() implies grown.links[(
    #[trigger] grown.mods[m].children[c]).0 as int].owner == ModuleId(m as usize) by {
        assert(grown.mods[m] == tree.mods[m]);
        assert(grown.mods[m].children[c] == tree.mods[m].children[c]);
    }
    assert forall|m: int| 0 <= m < grown.mods.len() implies ((#[trigger] grown.mods[m]).parent matches Some(
        link,
    ) ==> link.0 < tree.links.len() ==> Some(ModuleId(tree.mods.len() as usize)) == Some(
        ModuleId(m as usize),
    ) || (m < tree.mods.len() && tree.mods[m].parent == Some(link))) by {
        if m < tree.mods.len() {
            assert(grown.mods[m] == tree.mods[m]);
        }
    }
}

/// Declaring a link keeps the tree linked, with the new link open, and
/// builds on it without bringing any module under an older link.
pub(crate) proof fn lemma_push_link_linked(
    tree: TreeView,
    open: Set<LinkId>,
    name: Seq<char>,
    owner: ModuleId,
)
    requires
        tree.wf(),
        tree.linked(open),
        owner.0 < tree.mods.len(),
        tree.links.len() < usize::MAX,
    ensures
        tree.push_link(name, owner).linked(open.insert(LinkId(tree.links.len() as usize))),
        tree.built_on(tree.push_link(name, owner), None),
{
    let grown = tree.push_link(name, owner);
    let link = LinkId(tree.links.len() as usize);
    let wider = open.insert(link);
    assert forall|m: int| 0 <= m < grown.mods.len() implies ((#[trigger] grown.mods[m]).parent matches Some(
        l,
    ) ==> wider.contains(l) || grown.links[l.0 as int].points_to.contains(ModuleId(m as usize))) by {
        assert(grown.mods[m].parent == tree.mods[m].parent);
        if let Some(l) = tree.mods[m].parent {
            assert(l.0 < tree.links.len());
            assert(grown.links[l.0 as int] == tree.links[l.0 as int]);
        }
    }
    assert forall|l: int, p: int|
        0 <= l < grown.links.len() && 0 <= p < grown.links[l].points_to.len() implies grown.mods[(
    #[trigger] grown.links[l].points_to[p]).0 as int].parent == Some(LinkId(l as usize)) by {
        assert(grown.links[l] == tree.links[l]);
        let target = tree.links[l].points_to[p];
        assert(target.0 < tree.mods.len());
        assert(grown.mods[target.0 as int].parent == tree.mods[target.0 as int].parent);
    }
    assert forall|l: int| 0 <= l < grown.links.len() implies grown.mods[(
    #[trigger] grown.links[l]).owner.0 as int].children.contains(LinkId(l as usize)) by {
        if l < tree.links.len() {
            assert(grown.links[l] == tree.links[l]);
            let holder = tree.links[l].owner;
            assert(holder.0 < tree.mods.len());
            let at = choose|at: int|
                0 <= at < tree.mods[holder.0 as int].children.len()
                    && tree.mods[holder.0 as int].children[at] == LinkId(l as usize);
            assert(grown.mods[holder.0 as int].children[at] == LinkId(l as usize));
        } else {
            let last = tree.mods[owner.0 as int].children.len() as int;
            assert(grown.mods[owner.0 as int].children[last] == link);
        }
    }
    assert forall|m: int, c: int|
        0 <= m < grown.mods.len() && 0 <= c < grown.mods[m].children.len() implies grown.links[(
    #[trigger] grown.mods[m].children[c]).0 as int].owner == ModuleId(m as usize) by {
        if m == owner.0 && c == tree.mods[m].children.len() {
        } else {
            assert(grown.mods[m].children[c] == tree.mods[m].children[c]);
            let child = tree.mods[m].children[c];
            assert(child.0 < tree.links.len());
            assert(grown.links[child.0 as int] == tree.links[child.0 as int]);
        }
    }
    assert forall|l: LinkId| #[trigger] wider.contains(l) implies l.0 < grown.links.len()
        && grown.links[l.0 as int].points_to.len() == 0 by {
        if l != link {
            assert(open.contains(l));
            assert(grown.links[l.0 as int] == tree.links[l.0 as int]);
        }
    }
    assert forall|m: int| 0 <= m < grown.mods.len() implies ((#[trigger] grown.mods[m]).parent matches Some(
        l,
    ) ==> l.0 < tree.links.len() ==> None::<ModuleId> == Some(ModuleId(m as usize)) || (m
        < tree.mods.len() && tree.mods[m].parent == Some(l))) by {
        assert(grown.mods[m].parent == tree.mods[m].parent);
    }
    assert forall|m: int| 0 <= m < tree.mods.len() implies (#[trigger] grown.mods[m]).source
        == tree.mods[m].source by {}
    assert forall|m: int| 0 <= m < tree.mods.len() && tree.mods[m].parent is Some implies (
    #[trigger] grown.mods[m]).parent == tree.mods[m].parent by {}
}

/// Putting a module that has no parent under an open link keeps the tree
/// linked. Every other module keeps its parent.
pub(crate) proof fn lemma_set_parent_linked(
    tree: TreeView,
    open: Set<LinkId>,
    module: ModuleId,
    link: LinkId,
)
    requires
        tree.wf(),
        tree.linked(open),
        module.0 < tree.mods.len(),
        tree.mods[module.0 as int].parent is None,
        open.contains(link),
    ensures
        tree.set_parent(module, link).linked(open),
        forall|m: int|
            0 <= m < tree.mods.len() && m != module.0 ==> (#[trigger] tree.set_parent(
                module,
                link,
            ).mods[m]) == tree.mods[m],
{
    let changed = tree.set_parent(module, link);
    assert forall|m: int| 0 <= m < changed.mods.len() implies ((
    #[trigger] changed.mods[m]).parent matches Some(l) ==> open.contains(l)
        || changed.links[l.0 as int].points_to.contains(ModuleId(m as usize))) by {
        if m != module.0 {
            assert(changed.mods[m] == tree.mods[m]);
        }
    }
    assert forall|l: int, p: int|
        0 <= l < changed.links.len() && 0 <= p < changed.links[l].points_to.len() implies changed.mods[(
    #[trigger] changed.links[l].points_to[p]).0 as int].parent == Some(LinkId(l as usize)) by {
        let target = tree.links[l].points_to[p];
        assert(tree.mods[target.0 as int].parent == Some(LinkId(l as usize)));
        assert(target != module);
        assert(changed.mods[target.0 as int] == tree.mods[target.0 as int]);
    }
    assert forall|l: int| 0 <= l < changed.links.len() implies changed.mods[(
    #[trigger] changed.links[l]).owner.0 as int].children.contains(LinkId(l as usize)) by {
        let holder = tree.links[l].owner;
        assert(changed.mods[holder.0 as int].children == tree.mods[holder.0 as int].children);
    }
    assert forall|m: int, c: int|
        0 <= m < changed.mods.len() && 0 <= c < changed.mods[m].children.len() implies changed.links[(
    #[trigger] changed.mods[m].children[c]).0 as int].owner == ModuleId(m as usize) by {
        assert(changed.mods[m].children[c] == tree.mods[m].children[c]);
    }
}

/// Concluding an open link with exactly the modules whose parent it is
/// keeps the tree linked, with the link no longer open.
pub(crate) proof fn lemma_set_link_linked(
    tree: TreeView,
    open: Set<LinkId>,
    link: LinkId,
    points_to: Seq<ModuleId>,
    problem: Option<ProblemView>,
)
    requires
        tree.wf(),
        tree.linked(open),
        open.contains(link),
        tree.mods.len() <= usize::MAX,
        tree.links.len() <= usize::MAX,
        forall|p: int|
            0 <= p < points_to.len() ==> (#[trigger] points_to[p]).0 < tree.mods.len()
                && tree.mods[points_to[p].0 as int].parent == Some(link),
        forall|m: int|
            0 <= m < tree.mods.len() && (#[trigger] tree.mods[m]).parent == Some(link)
                ==> points_to.contains(ModuleId(m as usize)),
    ensures
        tree.set_link(link, points_to, problem).linked(open.remove(link)),
{
    let changed = tree.set_link(link, points_to, problem);
    let fewer = open.remove(link);
    assert forall|m: int| 0 <= m < changed.mods.len() implies ((
    #[trigger] changed.mods[m]).parent matches Some(l) ==> fewer.contains(l)
        || changed.links[l.0 as int].points_to.contains(ModuleId(m as usize))) by {
        if let Some(l) = tree.mods[m].parent {
            if l == link {
                assert(points_to.contains(ModuleId(m as usize)));
            } else if !open.contains(l) {
                assert(l.0 < tree.links.len());
                assert(changed.links[l.0 as int] == tree.links[l.0 as int]);
            }
        }
    }
    assert forall|l: int, p: int|
        0 <= l < changed.links.len() && 0 <= p < changed.links[l].points_to.len() implies changed.mods[(
    #[trigger] changed.links[l].points_to[p]).0 as int].parent == Some(LinkId(l as usize)) by {
        if l == link.0 {
            assert(changed.links[l].points_to[p] == points_to[p]);
        } else {
            assert(changed.links[l] == tree.links[l]);
        }
    }
    assert forall|l: int| 0 <= l < changed.links.len() implies changed.mods[(
    #[trigger] changed.links[l]).owner.0 as int].children.contains(LinkId(l as usize)) by {
        assert(changed.links[l].owner == tree.links[l].owner);
    }
    assert forall|m: int, c: int|
        0 <= m < changed.mods.len() && 0 <= c < changed.mods[m].children.len() implies changed.links[(
    #[trigger] changed.mods[m].children[c]).0 as int].owner == ModuleId(m as usize) by {
        let child = tree.mods[m].children[c];
        assert(changed.links[child.0 as int].owner == tree.links[child.0 as int].owner);
    }
    assert forall|l: LinkId| #[trigger] fewer.contains(l) implies l.0 < changed.links.len()
        && changed.links[l.0 as int].points_to.len() == 0 by {
        assert(open.contains(l));
        assert(changed.links[l.0 as int] == tree.links[l.0 as int]);
    }
}

/// The modules of a source root and the declarations that connect them.
/// It is filled while it is built and only read afterwards.
#[derive(Clone, Debug, PartialEq, Eq, Hash)]
pub struct ModuleTree {
    mods: Vec<ModuleData>,
    links: Vec<LinkData>,
}

impl View for ModuleTree {
    type V = TreeView;

    closed spec fn view(&self) -> TreeView {
        TreeView { mods: self.mods.deep_view(), links: self.links.deep_view() }
    }
}

impl ModuleTree {
    /// A tree without modules.
    pub fn new() -> (tree: Self)
        ensures
            tree@ == TreeView::empty(),
    {
        let tree = ModuleTree { mods: Vec::new(), links: Vec::new() };
        assert(tree@.mods =~= Seq::empty());
        assert(tree@.links =~= Seq::empty());
        tree
    }

    /// A tree in memory has no more modules and no more links than a
    /// machine word can count.
    pub proof fn lemma_fits(&self)
        ensures
            self@.mods.len() <= usize::MAX,
            self@.links.len() <= usize::MAX,
    {
        assert(self.mods.len() == self.mods@.len());
        assert(self.links.len() == self.links@.len());
    }

    /// The modules, in the order in which they were added.
    pub fn mods(&self) -> (mods: &Vec<ModuleData>)
        ensures
            mods.deep_view() == self@.mods,
    {
        &self.mods
    }

    /// The links, in the order in which they were added.
    pub fn links(&self) -> (links: &Vec<LinkData>)
        ensures
            links.deep_view() == self@.links,
    {
        &self.links
    }

    /// The module with the given index.
    pub fn module(&self, id: ModuleId) -> (data: &ModuleData)
        requires
            id.0 < self@.mods.len(),
        ensures
            data.deep_view() == self@.mods[id.0 as int],
    {
        &self.mods[id.0]
    }

    /// The link with the given index.
    pub fn link(&self, id: LinkId) -> (data: &LinkData)
        requires
            id.0 < self@.links.len(),
        ensures
            data.deep_view() == self@.links[id.0 as int],
    {
        &self.links[id.0]
    }

    /// Adds a module without children and hands out its index.
    pub fn push_mod(&mut self, source: ModuleSource, parent: Option<LinkId>) -> (id: ModuleId)
        ensures
            id.0 == old(self)@.mods.len(),
            final(self)@ == old(self)@.push_mod(source, parent),
            final(self)@.mods.len() <= usize::MAX,
    {
        let id = ModuleId(self.mods.len());
        self.mods.push(ModuleData { source, parent, children: Vec::new() });
        assert(self@.mods =~= old(self)@.push_mod(source, parent).mods);
        proof {
            self.lemma_fits();
        }
        id
    }

    /// Adds a link that `owner` declares under `name` and that leads
    /// nowhere yet, and hands out its index.
    pub fn push_link(&mut self, name: String, owner: ModuleId) -> (id: LinkId)
        requires
            owner.0 < old(self)@.mods.len(),
        ensures
            id.0 == old(self)@.links.len(),
            final(self)@ == old(self)@.push_link(name@, owner),
            final(self)@.links.len() <= usize::MAX,
    {
        let id = LinkId(self.links.len());
        self.mods[owner.0].children.push(id);
        self.links.push(LinkData { name, owner, points_to: Vec::new(), problem: None });
        assert(self@.mods =~= old(self)@.push_link(name@, owner).mods);
        assert(self@.links =~= old(self)@.push_link(name@, owner).links);
        proof {
            self.lemma_fits();
        }
        id
    }

    /// Makes `link` the declaration of `module`.
    pub fn set_parent(&mut self, module: ModuleId, link: LinkId)
        requires
            module.0 < old(self)@.mods.len(),
        ensures
            final(self)@ == old(self)@.set_parent(module, link),
    {
        self.mods[module.0].parent = Some(link);
        assert(self@.mods =~= old(self)@.set_parent(module, link).mods);
    }

    /// Records where `link` leads and what is wrong with it.
    pub fn set_link(&mut self, link: LinkId, points_to: Vec<ModuleId>, problem: Option<Problem>)
        requires
            link.0 < old(self)@.links.len(),
        ensures
            final(self)@ == old(self)@.set_link(link, points_to@, problem.deep_view()),
    {
        self.links[link.0].points_to = points_to;
        self.links[link.0].problem = problem;
        assert(self@.links =~= old(self)@.set_link(link, points_to@, problem.deep_view()).links);
    }
}

} // verus!
