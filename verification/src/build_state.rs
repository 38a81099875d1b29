//! What a tree build computes, as mathematics: the states that a build
//! passes through, the state that each step leads to, and what holds of
//! every state on the way.
//!
//! The tree is grown depth first. The member files are walked in the order
//! of their identifiers; a file that has no module yet becomes a root and
//! is expanded. Expanding a module adds one link for each submodule that
//! its source declares and follows the link: a declaration is resolved to
//! files, a definition carries its source with it. A file that stands as a
//! root when a declaration leads to it is taken over as a child; a source
//! that has its module already, as a child or as an ancestor, is not
//! expanded again, and the link that led to it says so.

use crate::input::{FileId, FileResolver};
use crate::resolve::{dir_candidate, file_candidate, is_dir_owner, resolution, ProblemView};
use crate::source::{submodules_in, ModuleSource, SubmoduleView};
use crate::syntax::SyntaxItemView;
use crate::tree::{lemma_built_on_twice, LinkDataView, LinkId, ModuleId, TreeView};
use vstd::prelude::*;

verus! {


/// What a tree is built from: the resolver of the source root and the
/// items of the files.
pub struct BuildEnv<R> {
    pub resolver: R,
    pub syntax: Map<FileId, Seq<SyntaxItemView>>,
}

impl<R: FileResolver> BuildEnv<R> {
    /// The submodules that `source` declares.
    pub open spec fn submodules_of(self, source: ModuleSource) -> Seq<SubmoduleView> {
        submodules_in(
            if self.syntax.contains_key(source.file()) {
                self.syntax[source.file()]
            } else {
                Seq::empty()
            },
            source,
        )
    }
}

/// A tree under construction: the tree so far, the sources that have a
/// module in it, and the files whose module stands as a root.
pub struct BuildState {
    pub tree: TreeView,
    pub visited: Set<ModuleSource>,
    pub roots: Map<FileId, ModuleId>,
}

/// The candidates of one declaration, as far as they were followed: the
/// state reached, the modules found, and the first candidate that was
/// passed over because it had its module already.
pub struct CandidateRun {
    pub state: BuildState,
    pub points_to: Seq<ModuleId>,
    pub revisited: Option<ModuleSource>,
}

/// The deepest nesting of modules that a build follows. No tree that fits
/// in memory is nested this deep.
pub open spec fn depth_limit() -> nat {
    usize::MAX as nat
}

impl BuildState {
    /// The state before anything is built.
    pub open spec fn empty() -> BuildState {
        BuildState { tree: TreeView::empty(), visited: Set::empty(), roots: Map::empty() }
    }

    /// The index that the next module gets.
    pub open spec fn next_module(self) -> ModuleId {
        ModuleId(self.tree.mods.len() as usize)
    }

    /// The index that the next link gets.
    pub open spec fn next_link(self) -> LinkId {
        LinkId(self.tree.links.len() as usize)
    }

    /// The state with a new module for `source` under `parent`.
    pub open spec fn enter(self, source: ModuleSource, parent: Option<LinkId>) -> BuildState {
        BuildState {
            tree: self.tree.push_mod(source, parent),
            visited: self.visited.insert(source),
            roots: self.roots,
        }
    }

    /// The state with a new link that `owner` declares under `name`.
    pub open spec fn declare(self, name: Seq<char>, owner: ModuleId) -> BuildState {
        BuildState { tree: self.tree.push_link(name, owner), ..self }
    }

    /// The state in which the root that stands for `file` has become the
    /// child that `link` declares.
    pub open spec fn adopt(self, file: FileId, link: LinkId) -> BuildState {
        BuildState {
            tree: self.tree.set_parent(self.roots[file], link),
            visited: self.visited,
            roots: self.roots.remove(file),
        }
    }

    /// The state in which `link` leads to `points_to` and carries `problem`.
    pub open spec fn conclude(
        self,
        link: LinkId,
        points_to: Seq<ModuleId>,
        problem: Option<ProblemView>,
    ) -> BuildState {
        BuildState { tree: self.tree.set_link(link, points_to, problem), ..self }
    }

    /// The state in which `module` stands as the root for `file`.
    pub open spec fn plant(self, file: FileId, module: ModuleId) -> BuildState {
        BuildState { roots: self.roots.insert(file, module), ..self }
    }
}

/// The problem that a declaration's link carries: the one met in resolving
/// it, or else that its first passed-over candidate had a module already.
pub open spec fn link_problem(
    found: Option<ProblemView>,
    revisited: Option<ModuleSource>,
) -> Option<ProblemView> {
    match found {
        Some(problem) => Some(problem),
        None => match revisited {
            Some(source) => Some(ProblemView::AlreadyVisited { source }),
            None => None,
        },
    }
}

/// The state after the module for `source` and everything below it was
/// added under `parent`. The new module gets the index `st.next_module()`.
/// `depth` bounds the nesting that is followed.
pub open spec fn subtree_built<R: FileResolver>(
    env: BuildEnv<R>,
    depth: nat,
    st: BuildState,
    parent: Option<LinkId>,
    source: ModuleSource,
) -> BuildState
    decreases depth, 0nat, 0nat,
{
    if depth == 0 {
        st
    } else {
        submodules_expanded(
            env,
            (depth - 1) as nat,
            st.enter(source, parent),
            st.next_module(),
            source,
            env.submodules_of(source),
            0,
        )
    }
}

/// The state after the submodules `subs[at..]` of the module `owner`, whose
/// source is `source`, were linked and followed, in their order.
pub open spec fn submodules_expanded<R: FileResolver>(
    env: BuildEnv<R>,
    depth: nat,
    st: BuildState,
    owner: ModuleId,
    source: ModuleSource,
    subs: Seq<SubmoduleView>,
    at: int,
) -> BuildState
    decreases depth, 2nat, subs.len() - at,
{
    if at < 0 || at >= subs.len() {
        st
    } else {
        submodules_expanded(
            env,
            depth,
            submodule_expanded(env, depth, st, owner, source, subs[at]),
            owner,
            source,
            subs,
            at + 1,
        )
    }
}

/// The state after the one submodule `sub` of the module `owner` was linked
/// and followed.
pub open spec fn submodule_expanded<R: FileResolver>(
    env: BuildEnv<R>,
    depth: nat,
    st: BuildState,
    owner: ModuleId,
    source: ModuleSource,
    sub: SubmoduleView,
) -> BuildState
    decreases depth, 1nat, 1nat,
{
    let link = st.next_link();
    let linked = st.declare(sub.name(), owner);
    match sub {
        SubmoduleView::Declaration(name) => {
            let found = resolution(env.resolver, source, name);
            let start = CandidateRun { state: linked, points_to: Seq::empty(), revisited: None };
            let run = candidates_followed(env, depth, start, link, found.points_to, 0);
            run.state.conclude(link, run.points_to, link_problem(found.problem, run.revisited))
        },
        SubmoduleView::Definition(_, inner) => {
            if linked.visited.contains(inner) {
                linked.conclude(
                    link,
                    Seq::empty(),
                    Some(ProblemView::AlreadyVisited { source: inner }),
                )
            } else {
                subtree_built(env, depth, linked, Some(link), inner).conclude(
                    link,
                    seq![linked.next_module()],
                    None,
                )
            }
        },
    }
}

/// The run after the candidates `files[at..]` of the declaration `link`
/// were followed, in their order.
pub open spec fn candidates_followed<R: FileResolver>(
    env: BuildEnv<R>,
    depth: nat,
    run: CandidateRun,
    link: LinkId,
    files: Seq<FileId>,
    at: int,
) -> CandidateRun
    decreases depth, 1nat, 0nat, files.len() - at,
{
    if at < 0 || at >= files.len() {
        run
    } else {
        candidates_followed(env, depth, candidate_followed(env, depth, run, link, files[at]), link, files, at + 1)
    }
}

/// The run after the one candidate `file` of the declaration `link` was
/// followed: a root is taken over, a source that has a module already is
/// passed over, and any other file is expanded.
pub open spec fn candidate_followed<R: FileResolver>(
    env: BuildEnv<R>,
    depth: nat,
    run: CandidateRun,
    link: LinkId,
    file: FileId,
) -> CandidateRun
    decreases depth, 0nat, 1nat,
{
    let st = run.state;
    let target = ModuleSource::SourceFile(file);
    if st.roots.contains_key(file) {
        CandidateRun {
            state: st.adopt(file, link),
            points_to: run.points_to.push(st.roots[file]),
            revisited: run.revisited,
        }
    } else if st.visited.contains(target) {
        CandidateRun {
            state: st,
            points_to: run.points_to,
            revisited: if run.revisited is None {
                Some(target)
            } else {
                run.revisited
            },
        }
    } else {
        CandidateRun {
            state: subtree_built(env, depth, st, Some(link), target),
            points_to: run.points_to.push(st.next_module()),
            revisited: run.revisited,
        }
    }
}

/// The state after the member files `files[at..]` were walked: each file
/// that has no module yet is expanded and stands as a root from then on.
pub open spec fn roots_planted<R: FileResolver>(
    env: BuildEnv<R>,
    st: BuildState,
    files: Seq<FileId>,
    at: int,
) -> BuildState
    decreases files.len() - at,
{
    if at < 0 || at >= files.len() {
        st
    } else {
        roots_planted(env, root_planted(env, st, files[at]), files, at + 1)
    }
}

/// The state after the one member file `file` was walked.
pub open spec fn root_planted<R: FileResolver>(
    env: BuildEnv<R>,
    st: BuildState,
    file: FileId,
) -> BuildState {
    let source = ModuleSource::SourceFile(file);
    if st.visited.contains(source) {
        st
    } else {
        subtree_built(env, depth_limit(), st, None, source).plant(file, st.next_module())
    }
}

/// The module tree of a source root with the member files `files`.
pub open spec fn module_tree_of<R: FileResolver>(env: BuildEnv<R>, files: Seq<FileId>) -> TreeView {
    roots_planted(env, BuildState::empty(), files, 0).tree
}

impl BuildState {
    /// States that the module with the index `m` stands as a root.
    pub open spec fn is_root(self, m: int) -> bool {
        self.tree.mods[m].source matches ModuleSource::SourceFile(file) && self.roots.contains_key(
            file,
        )
    }

    /// What holds of every state that a build passes through: the indices
    /// in the tree are valid, the sources marked as visited are those that
    /// have a module, no source has two modules, a module without a parent
    /// is the module of a whole file, and each file that stands as a root
    /// has a module of its own for its source, which has no parent.
    pub open spec fn consistent(self) -> bool {
        &&& self.tree.wf()
        &&& self.tree.distinct_sources()
        &&& self.tree.rooted_in_files()
        &&& forall|source: ModuleSource|
            self.visited.contains(source) <==> #[trigger] self.tree.has_module(source)
        &&& forall|file: FileId| #[trigger]
            self.roots.contains_key(file) ==> {
                &&& self.roots[file].0 < self.tree.mods.len()
                &&& self.tree.mods[self.roots[file].0 as int].source == ModuleSource::SourceFile(
                    file,
                )
                &&& self.tree.mods[self.roots[file].0 as int].parent is None
            }
    }

    /// The state is consistent, and modules and links agree on how they
    /// are connected, but for the links in `open`, which are still being
    /// followed.
    pub open spec fn shaped(self, open: Set<LinkId>) -> bool {
        &&& self.consistent()
        &&& self.tree.linked(open)
    }

    /// Everything that holds of a state that a build passes through while
    /// the links in `open` are being followed and the modules in `active`
    /// are being expanded.
    pub open spec fn sound<R: FileResolver>(
        self,
        env: BuildEnv<R>,
        open: Set<LinkId>,
        active: Set<ModuleId>,
    ) -> bool {
        &&& self.shaped(open)
        &&& mirrors(env, self.tree, active)
        &&& follows(env, self.tree, open)
        &&& self.tree.mods.len() <= usize::MAX
        &&& self.tree.links.len() <= usize::MAX
    }

    /// States that `later` was reached from this state by building on: the
    /// tree was built on, with `fresh` as the one module that may have come
    /// under a link of this state; what was visited stays visited; no root
    /// was added; and only roots changed their parent.
    pub open spec fn grown_to(self, later: BuildState, fresh: Option<ModuleId>) -> bool {
        &&& self.tree.built_on(later.tree, fresh)
        &&& self.visited.subset_of(later.visited)
        &&& forall|file: FileId| #[trigger]
            later.roots.contains_key(file) ==> self.roots.contains_key(file) && later.roots[file]
                == self.roots[file]
        &&& forall|m: int|
            0 <= m < self.tree.mods.len() && !self.is_root(m) ==> (#[trigger] later.tree.mods[m]).parent
                == self.tree.mods[m].parent
    }
}

/// Growing is transitive.
pub(crate) proof fn lemma_grown_twice(a: BuildState, b: BuildState, c: BuildState, fresh: Option<ModuleId>)
    requires
        a.grown_to(b, fresh),
        b.grown_to(c, None),
    ensures
        a.grown_to(c, fresh),
{
    lemma_built_on_twice(a.tree, b.tree, c.tree, fresh);
    assert forall|file: FileId| #[trigger] c.roots.contains_key(file) implies a.roots.contains_key(
        file,
    ) && c.roots[file] == a.roots[file] by {
        assert(b.roots.contains_key(file));
    }
    assert forall|m: int| 0 <= m < a.tree.mods.len() && !a.is_root(m) implies (
    #[trigger] c.tree.mods[m]).parent == a.tree.mods[m].parent by {
        assert(b.tree.mods[m].source == a.tree.mods[m].source);
        assert(b.tree.mods[m].parent == a.tree.mods[m].parent);
        if b.is_root(m) {
            let file = b.tree.mods[m].source->SourceFile_0;
            assert(a.roots.contains_key(file));
        }
    }
}

/// A state that has grown by a subtree under a link that it did not have
/// at the start has grown without a fresh module under its own links.
pub(crate) proof fn lemma_grown_under_new_link(
    a: BuildState,
    b: BuildState,
    c: BuildState,
    id: ModuleId,
    link: LinkId,
)
    requires
        a.grown_to(b, None),
        b.grown_to(c, Some(id)),
        id.0 < c.tree.mods.len() <= usize::MAX,
        c.tree.mods[id.0 as int].parent == Some(link),
        link.0 >= a.tree.links.len(),
    ensures
        a.grown_to(c, None),
{
    assert forall|m: int| 0 <= m < c.tree.mods.len() implies ((
    #[trigger] c.tree.mods[m]).parent matches Some(l) ==> l.0 < a.tree.links.len() ==> None::<
        ModuleId,
    > == Some(ModuleId(m as usize)) || (m < a.tree.mods.len() && a.tree.mods[m].parent == Some(
        l,
    ))) by {
        if let Some(l) = c.tree.mods[m].parent {
            if l.0 < a.tree.links.len() {
                assert(m != id.0);
                assert(m < b.tree.mods.len() && b.tree.mods[m].parent == Some(l));
            }
        }
    }
    assert forall|m: int| 0 <= m < a.tree.mods.len() implies (#[trigger] c.tree.mods[m]).source
        == a.tree.mods[m].source by {
        assert(b.tree.mods[m].source == a.tree.mods[m].source);
    }
    assert forall|m: int| 0 <= m < a.tree.mods.len() && a.tree.mods[m].parent is Some implies (
    #[trigger] c.tree.mods[m]).parent == a.tree.mods[m].parent by {
        assert(b.tree.mods[m].parent == a.tree.mods[m].parent);
    }
    assert forall|file: FileId| #[trigger] c.roots.contains_key(file) implies a.roots.contains_key(
        file,
    ) && c.roots[file] == a.roots[file] by {
        assert(b.roots.contains_key(file));
    }
    assert forall|m: int| 0 <= m < a.tree.mods.len() && !a.is_root(m) implies (
    #[trigger] c.tree.mods[m]).parent == a.tree.mods[m].parent by {
        assert(b.tree.mods[m].source == a.tree.mods[m].source);
        assert(b.tree.mods[m].parent == a.tree.mods[m].parent);
        if b.is_root(m) {
            let file = b.tree.mods[m].source->SourceFile_0;
            assert(a.roots.contains_key(file));
        }
    }
}

/// A state that takes a root over under a link that it did not have at the
/// start has grown without a fresh module under its own links.
pub(crate) proof fn lemma_grown_by_adopting(a: BuildState, b: BuildState, file: FileId, link: LinkId)
    requires
        a.grown_to(b, None),
        b.consistent(),
        b.roots.contains_key(file),
        link.0 >= a.tree.links.len(),
    ensures
        a.grown_to(b.adopt(file, link), None),
{
    let c = b.adopt(file, link);
    let root = b.roots[file];
    assert forall|m: int| 0 <= m < a.tree.mods.len() implies (#[trigger] c.tree.mods[m]).source
        == a.tree.mods[m].source by {
        assert(b.tree.mods[m].source == a.tree.mods[m].source);
    }
    assert forall|m: int| 0 <= m < a.tree.mods.len() && a.tree.mods[m].parent is Some implies (
    #[trigger] c.tree.mods[m]).parent == a.tree.mods[m].parent by {
        assert(b.tree.mods[m].parent == a.tree.mods[m].parent);
    }
    assert forall|m: int| 0 <= m < c.tree.mods.len() implies ((
    #[trigger] c.tree.mods[m]).parent matches Some(l) ==> l.0 < a.tree.links.len() ==> None::<
        ModuleId,
    > == Some(ModuleId(m as usize)) || (m < a.tree.mods.len() && a.tree.mods[m].parent == Some(
        l,
    ))) by {
        if m != root.0 {
            assert(c.tree.mods[m] == b.tree.mods[m]);
            assert(b.tree.mods[m].parent == c.tree.mods[m].parent);
        }
    }
    assert forall|m: int| 0 <= m < a.tree.mods.len() && !a.is_root(m) implies (
    #[trigger] c.tree.mods[m]).parent == a.tree.mods[m].parent by {
        assert(b.tree.mods[m].source == a.tree.mods[m].source);
        assert(b.tree.mods[m].parent == a.tree.mods[m].parent);
        if m == root.0 {
            assert(a.roots.contains_key(file));
        }
    }
}

/// States that the links that a module declares are the submodules that
/// its source declares: as many, in the same order, under the same names.
/// For the modules in `active`, which are still being expanded, the links
/// are the first of the submodules, as many as have been reached.
pub open spec fn mirrors<R: FileResolver>(
    env: BuildEnv<R>,
    tree: TreeView,
    active: Set<ModuleId>,
) -> bool {
    &&& forall|m: int|
        0 <= m < tree.mods.len() ==> {
            &&& (#[trigger] tree.mods[m]).children.len() <= env.submodules_of(
                tree.mods[m].source,
            ).len()
            &&& !active.contains(ModuleId(m as usize)) ==> tree.mods[m].children.len()
                == env.submodules_of(tree.mods[m].source).len()
        }
    &&& forall|m: int, c: int|
        0 <= m < tree.mods.len() && 0 <= c < tree.mods[m].children.len() ==> tree.links[(
        #[trigger] tree.mods[m].children[c]).0 as int].name == env.submodules_of(
            tree.mods[m].source,
        )[c].name()
}

/// States that `link`, once it is concluded, is what following the
/// submodule `sub` of a module with the source `source` leads to.
///
/// The link of a definition leads to the one module of the definition's
/// source and has no problem; or, if that source had its module already,
/// it leads nowhere and says so, and the source has its module under
/// another link. The link of a declaration that does not
/// resolve carries the problem of the resolution and leads nowhere. The
/// link of a declaration that resolves leads to modules of files that it
/// resolves to; it leads to as many modules as there are such files and
/// has no problem, or to fewer, and then it names a file that was passed
/// over because it had its module already.
pub open spec fn link_follows<R: FileResolver>(
    env: BuildEnv<R>,
    tree: TreeView,
    source: ModuleSource,
    sub: SubmoduleView,
    link: LinkDataView,
) -> bool {
    match sub {
        SubmoduleView::Definition(_, inner) => {
            ||| link.points_to.len() == 1 && tree.mods[link.points_to[0].0 as int].source == inner
                && link.problem is None
            ||| link.points_to.len() == 0 && link.problem == Some(
                ProblemView::AlreadyVisited { source: inner },
            ) && tree.has_module(inner)
        },
        SubmoduleView::Declaration(name) => {
            let found = resolution(env.resolver, source, name);
            if found.problem is Some {
                link.points_to.len() == 0 && link.problem == found.problem
            } else {
                &&& link.points_to.len() <= found.points_to.len()
                &&& forall|p: int|
                    0 <= p < link.points_to.len() ==> among(
                        found.points_to,
                        tree.mods[(#[trigger] link.points_to[p]).0 as int].source,
                    )
                &&& link.problem is None <==> link.points_to.len() == found.points_to.len()
                &&& link.problem matches Some(problem) ==> problem matches ProblemView::AlreadyVisited {
                    source: passed,
                } && among(found.points_to, passed)
            }
        },
    }
}

/// States that `source` is one of `files` as a whole.
pub open spec fn among(files: Seq<FileId>, source: ModuleSource) -> bool {
    exists|k: int| 0 <= k < files.len() && source == ModuleSource::SourceFile(#[trigger] files[k])
}

/// What is among the first files is among the first files and one more.
pub(crate) proof fn lemma_among_more(files: Seq<FileId>, at: int, source: ModuleSource)
    requires
        0 <= at < files.len(),
        among(files.take(at), source),
    ensures
        among(files.take(at + 1), source),
{
    let k = choose|k: int|
        0 <= k < files.take(at).len() && source == ModuleSource::SourceFile(
            #[trigger] files.take(at)[k],
        );
    assert(files.take(at + 1)[k] == files.take(at)[k]);
}

/// The last of the first files is among them.
pub(crate) proof fn lemma_among_last(files: Seq<FileId>, at: int)
    requires
        0 <= at < files.len(),
    ensures
        among(files.take(at + 1), ModuleSource::SourceFile(files[at])),
{
    assert(files.take(at + 1)[at] == files[at]);
}

/// A link that has its place among the children of its owner, and nowhere
/// else, keeps that place as long as the modules keep their children and
/// the link keeps its owner.
pub(crate) proof fn lemma_one_place(
    before: TreeView,
    later: TreeView,
    open: Set<LinkId>,
    link: LinkId,
    owner: ModuleId,
    at: int,
)
    requires
        later.wf(),
        later.linked(open),
        later.mods.len() <= usize::MAX,
        owner.0 < before.mods.len(),
        link.0 < later.links.len(),
        later.links[link.0 as int].owner == owner,
        before.keeps_children(later, None),
        before.only_place(link, owner, at),
    ensures
        later.only_place(link, owner, at),
{
    assert forall|m: int, c: int|
        0 <= m < later.mods.len() && 0 <= c < later.mods[m].children.len() && (
        #[trigger] later.mods[m].children[c]) == link implies m == owner.0 && c == at by {
        assert(later.links[later.mods[m].children[c].0 as int].owner == ModuleId(m as usize));
        assert(m == owner.0);
        assert(later.mods[m].children == before.mods[m].children);
        assert(before.mods[m].children[c] == link);
    }
}

/// States that every link that is concluded is what following its
/// submodule leads to. The links in `open` are those that are not concluded
/// yet.
pub open spec fn follows<R: FileResolver>(env: BuildEnv<R>, tree: TreeView, open: Set<LinkId>) -> bool {
    forall|m: int, c: int|
        0 <= m < tree.mods.len() && 0 <= c < tree.mods[m].children.len() && c
            < env.submodules_of(tree.mods[m].source).len() && !open.contains(
            #[trigger] tree.mods[m].children[c],
        ) ==> link_follows(
            env,
            tree,
            tree.mods[m].source,
            env.submodules_of(tree.mods[m].source)[c],
            tree.links[tree.mods[m].children[c].0 as int],
        )
}

/// What a link leads to is settled by the link and by the sources of the
/// modules it leads to.
pub(crate) proof fn lemma_link_follows_kept<R: FileResolver>(
    env: BuildEnv<R>,
    a: TreeView,
    b: TreeView,
    source: ModuleSource,
    sub: SubmoduleView,
    link: LinkDataView,
)
    requires
        link_follows(env, a, source, sub, link),
        forall|p: int| 0 <= p < link.points_to.len() ==> (#[trigger] link.points_to[p]).0 < a.mods.len(),
        a.mods.len() <= b.mods.len(),
        forall|m: int| 0 <= m < a.mods.len() ==> (#[trigger] b.mods[m]).source == a.mods[m].source,
    ensures
        link_follows(env, b, source, sub, link),
{
    match sub {
        SubmoduleView::Definition(_, inner) => {
            if link.points_to.len() == 1 {
                assert(b.mods[link.points_to[0].0 as int].source
                    == a.mods[link.points_to[0].0 as int].source);
            } else {
                let m = choose|m: int| 0 <= m < a.mods.len() && (#[trigger] a.mods[m]).source == inner;
                assert(b.mods[m].source == inner);
            }
        },
        SubmoduleView::Declaration(name) => {
            let found = resolution(env.resolver, source, name);
            if found.problem is None {
                assert forall|p: int| 0 <= p < link.points_to.len() implies among(
                    found.points_to,
                    b.mods[(#[trigger] link.points_to[p]).0 as int].source,
                ) by {
                    assert(b.mods[link.points_to[p].0 as int].source
                        == a.mods[link.points_to[p].0 as int].source);
                }
            }
        },
    }
}

/// A tree follows its submodules if each of its concluded links stands
/// where it stood, unchanged, in a tree that follows its submodules and
/// whose modules have kept their sources.
pub(crate) proof fn lemma_follows_kept<R: FileResolver>(
    env: BuildEnv<R>,
    a: TreeView,
    b: TreeView,
    open_a: Set<LinkId>,
    open_b: Set<LinkId>,
)
    requires
        a.wf(),
        follows(env, a, open_a),
        a.mods.len() <= b.mods.len(),
        forall|m: int| 0 <= m < a.mods.len() ==> (#[trigger] b.mods[m]).source == a.mods[m].source,
        forall|m: int, c: int|
            0 <= m < b.mods.len() && 0 <= c < b.mods[m].children.len() && !open_b.contains(
                #[trigger] b.mods[m].children[c],
            ) ==> {
                &&& m < a.mods.len()
                &&& c < a.mods[m].children.len()
                &&& a.mods[m].children[c] == b.mods[m].children[c]
                &&& !open_a.contains(a.mods[m].children[c])
                &&& b.links[b.mods[m].children[c].0 as int] == a.links[a.mods[m].children[c].0 as int]
            },
    ensures
        follows(env, b, open_b),
{
    assert forall|m: int, c: int|
        0 <= m < b.mods.len() && 0 <= c < b.mods[m].children.len() && c < env.submodules_of(
            b.mods[m].source,
        ).len() && !open_b.contains(#[trigger] b.mods[m].children[c]) implies link_follows(
        env,
        b,
        b.mods[m].source,
        env.submodules_of(b.mods[m].source)[c],
        b.links[b.mods[m].children[c].0 as int],
    ) by {
        let child = a.mods[m].children[c];
        assert(child == b.mods[m].children[c]);
        assert(b.mods[m].source == a.mods[m].source);
        let link = a.links[child.0 as int];
        assert(child.0 < a.links.len());
        assert forall|p: int| 0 <= p < link.points_to.len() implies (
        #[trigger] link.points_to[p]).0 < a.mods.len() by {
            assert(a.links[child.0 as int].points_to[p].0 < a.mods.len());
        }
        lemma_link_follows_kept(
            env,
            a,
            b,
            a.mods[m].source,
            env.submodules_of(a.mods[m].source)[c],
            link,
        );
    }
}

/// A tree that follows its submodules still does when an open link is
/// concluded with what following its submodule leads to. The link is the
/// child of `owner` at the place `at`, and nowhere else a child.
pub(crate) proof fn lemma_follows_concluded<R: FileResolver>(
    env: BuildEnv<R>,
    tree: TreeView,
    open: Set<LinkId>,
    link: LinkId,
    points_to: Seq<ModuleId>,
    problem: Option<ProblemView>,
    owner: ModuleId,
    at: int,
)
    requires
        tree.wf(),
        follows(env, tree, open),
        link.0 < tree.links.len(),
        owner.0 < tree.mods.len(),
        forall|p: int| 0 <= p < points_to.len() ==> (#[trigger] points_to[p]).0 < tree.mods.len(),
        tree.only_place(link, owner, at),
        0 <= at < env.submodules_of(tree.mods[owner.0 as int].source).len() ==> link_follows(
            env,
            tree,
            tree.mods[owner.0 as int].source,
            env.submodules_of(tree.mods[owner.0 as int].source)[at],
            LinkDataView { points_to, problem, ..tree.links[link.0 as int] },
        ),
    ensures
        follows(env, tree.set_link(link, points_to, problem), open.remove(link)),
{
    let changed = tree.set_link(link, points_to, problem);
    assert forall|m: int, c: int|
        0 <= m < changed.mods.len() && 0 <= c < changed.mods[m].children.len() && c
            < env.submodules_of(changed.mods[m].source).len() && !open.remove(link).contains(
            #[trigger] changed.mods[m].children[c],
        ) implies link_follows(
        env,
        changed,
        changed.mods[m].source,
        env.submodules_of(changed.mods[m].source)[c],
        changed.links[changed.mods[m].children[c].0 as int],
    ) by {
        let child = tree.mods[m].children[c];
        assert(child.0 < tree.links.len());
        if child == link {
            assert(m == owner.0 && c == at);
            lemma_link_follows_kept(
                env,
                tree,
                changed,
                tree.mods[m].source,
                env.submodules_of(tree.mods[m].source)[c],
                changed.links[link.0 as int],
            );
        } else {
            assert(changed.links[child.0 as int] == tree.links[child.0 as int]);
            let kept = tree.links[child.0 as int];
            assert forall|p: int| 0 <= p < kept.points_to.len() implies (
            #[trigger] kept.points_to[p]).0 < tree.mods.len() by {
                assert(tree.links[child.0 as int].points_to[p].0 < tree.mods.len());
            }
            lemma_link_follows_kept(
                env,
                tree,
                changed,
                tree.mods[m].source,
                env.submodules_of(tree.mods[m].source)[c],
                kept,
            );
        }
    }
}

/// A tree that declares what a mirroring tree declares mirrors too.
pub(crate) proof fn lemma_mirrors_kept<R: FileResolver>(
    env: BuildEnv<R>,
    a: TreeView,
    b: TreeView,
    active: Set<ModuleId>,
)
    requires
        a.wf(),
        a.same_declarations(b),
        mirrors(env, a, active),
    ensures
        mirrors(env, b, active),
{
    assert forall|m: int| 0 <= m < b.mods.len() implies {
        &&& (#[trigger] b.mods[m]).children.len() <= env.submodules_of(b.mods[m].source).len()
        &&& !active.contains(ModuleId(m as usize)) ==> b.mods[m].children.len()
            == env.submodules_of(b.mods[m].source).len()
    } by {
        assert(a.mods[m].children == b.mods[m].children);
    }
    assert forall|m: int, c: int|
        0 <= m < b.mods.len() && 0 <= c < b.mods[m].children.len() implies b.links[(
    #[trigger] b.mods[m].children[c]).0 as int].name == env.submodules_of(b.mods[m].source)[c].name() by {
        assert(a.mods[m].children == b.mods[m].children);
        let child = a.mods[m].children[c];
        assert(child.0 < a.links.len());
        assert(b.links[child.0 as int].name == a.links[child.0 as int].name);
    }
}

/// A module that has a link for each submodule of its source need not count
/// as active any more.
pub(crate) proof fn lemma_mirrors_done<R: FileResolver>(
    env: BuildEnv<R>,
    tree: TreeView,
    active: Set<ModuleId>,
    id: ModuleId,
)
    requires
        mirrors(env, tree, active.insert(id)),
        id.0 < tree.mods.len() <= usize::MAX,
        tree.mods[id.0 as int].children.len() == env.submodules_of(
            tree.mods[id.0 as int].source,
        ).len(),
    ensures
        mirrors(env, tree, active),
{
    assert forall|m: int| 0 <= m < tree.mods.len() implies {
        &&& (#[trigger] tree.mods[m]).children.len() <= env.submodules_of(
            tree.mods[m].source,
        ).len()
        &&& !active.contains(ModuleId(m as usize)) ==> tree.mods[m].children.len()
            == env.submodules_of(tree.mods[m].source).len()
    } by {
        if m != id.0 {
            assert(ModuleId(m as usize) != id);
        }
    }
}

/// States that `tree` is the module tree of a source root with the member
/// files `files`: it is the tree that the build gives; its indices fit in
/// a machine word and are valid; every member file has exactly one module
/// in it, for no source has two; a module without a parent is the module
/// of a whole file; modules and links agree on how they are connected; every module declares the submodules that its source
/// declares; and every link is what following its submodule leads to.
pub open spec fn is_module_tree<R: FileResolver>(
    env: BuildEnv<R>,
    files: Seq<FileId>,
    tree: TreeView,
) -> bool {
    &&& tree == module_tree_of(env, files)
    &&& tree.mods.len() <= usize::MAX
    &&& tree.links.len() <= usize::MAX
    &&& tree.wf()
    &&& tree.distinct_sources()
    &&& tree.rooted_in_files()
    &&& tree.linked(Set::empty())
    &&& mirrors(env, tree, Set::empty())
    &&& follows(env, tree, Set::empty())
    &&& forall|k: int|
        0 <= k < files.len() ==> tree.has_module(ModuleSource::SourceFile(#[trigger] files[k]))
}

/// Every member file of a source root is the source of exactly one module
/// of the tree.
pub proof fn lemma_one_module_per_file<R: FileResolver>(
    env: BuildEnv<R>,
    files: Seq<FileId>,
    tree: TreeView,
    file: FileId,
)
    requires
        is_module_tree(env, files, tree),
        files.contains(file),
    ensures
        exists|m: int|
            {
                &&& 0 <= m < tree.mods.len()
                &&& (#[trigger] tree.mods[m]).source == ModuleSource::SourceFile(file)
                &&& forall|n: int|
                    0 <= n < tree.mods.len() && (#[trigger] tree.mods[n]).source
                        == ModuleSource::SourceFile(file) ==> n == m
            },
{
    let k = choose|k: int| 0 <= k < files.len() && files[k] == file;
    assert(tree.has_module(ModuleSource::SourceFile(files[k])));
    let m = choose|m: int|
        0 <= m < tree.mods.len() && (#[trigger] tree.mods[m]).source == ModuleSource::SourceFile(
            file,
        );
    assert forall|n: int|
        0 <= n < tree.mods.len() && (#[trigger] tree.mods[n]).source == ModuleSource::SourceFile(
            file,
        ) implies n == m by {
        lemma_no_source_twice(env, files, tree, n, m);
    }
}

/// No source has two modules in the tree, whether it is reached once,
/// several times, or from below itself: declarations that lead back to a
/// source that has its module do not make another.
pub proof fn lemma_no_source_twice<R: FileResolver>(
    env: BuildEnv<R>,
    files: Seq<FileId>,
    tree: TreeView,
    a: int,
    b: int,
)
    requires
        is_module_tree(env, files, tree),
        0 <= a < tree.mods.len(),
        0 <= b < tree.mods.len(),
        tree.mods[a].source == tree.mods[b].source,
    ensures
        a == b,
{
    if a < b {
        assert(tree.mods[a].source != tree.mods[b].source);
    } else if b < a {
        assert(tree.mods[b].source != tree.mods[a].source);
    }
}

/// In the tree of a source root, a module has one child link for each
/// submodule that its source declares: the link at the place of the
/// submodule has the name of the submodule, is owned by the module, and is
/// what following the submodule leads to.
pub proof fn lemma_child_is_submodule<R: FileResolver>(
    env: BuildEnv<R>,
    files: Seq<FileId>,
    tree: TreeView,
    m: int,
    c: int,
)
    requires
        is_module_tree(env, files, tree),
        0 <= m < tree.mods.len(),
        0 <= c < env.submodules_of(tree.mods[m].source).len(),
    ensures
        tree.mods[m].children.len() == env.submodules_of(tree.mods[m].source).len(),
        tree.mods[m].children[c].0 < tree.links.len(),
        ({
            let sub = env.submodules_of(tree.mods[m].source)[c];
            let link = tree.links[tree.mods[m].children[c].0 as int];
            &&& link.name == sub.name()
            &&& link.owner == ModuleId(m as usize)
            &&& link_follows(env, tree, tree.mods[m].source, sub, link)
        }),
{
    assert(tree.mods[m].children.len() == env.submodules_of(tree.mods[m].source).len());
    let child = tree.mods[m].children[c];
    assert(!Set::<LinkId>::empty().contains(child));
}

/// In the tree of a source root, the link for a declaration in a file that
/// does not own a directory, at its top or in an inline module, leads nowhere and carries the problem that
/// says so, whatever files exist.
pub proof fn lemma_non_owner_link<R: FileResolver>(
    env: BuildEnv<R>,
    files: Seq<FileId>,
    tree: TreeView,
    m: int,
    c: int,
)
    requires
        is_module_tree(env, files, tree),
        0 <= m < tree.mods.len(),
        0 <= c < env.submodules_of(tree.mods[m].source).len(),
        env.submodules_of(tree.mods[m].source)[c] is Declaration,
        !is_dir_owner(env.resolver.stem_of(tree.mods[m].source.file())),
    ensures
        ({
            let name = env.submodules_of(tree.mods[m].source)[c].name();
            let file = tree.mods[m].source.file();
            let link = tree.links[tree.mods[m].children[c].0 as int];
            &&& link.points_to.len() == 0
            &&& link.problem == Some(
                ProblemView::NotDirOwner {
                    move_to: dir_candidate(env.resolver.stem_of(file)),
                    candidate: file_candidate(name),
                },
            )
        }),
{
    lemma_child_is_submodule(env, files, tree, m, c);
}

/// In the tree of a source root, the link for a declaration in a file that
/// owns a directory, where neither the sibling file nor the sibling
/// directory exists, leads nowhere and names the sibling file.
pub proof fn lemma_unresolved_link<R: FileResolver>(
    env: BuildEnv<R>,
    files: Seq<FileId>,
    tree: TreeView,
    m: int,
    c: int,
)
    requires
        is_module_tree(env, files, tree),
        0 <= m < tree.mods.len(),
        0 <= c < env.submodules_of(tree.mods[m].source).len(),
        env.submodules_of(tree.mods[m].source)[c] is Declaration,
        ({
            let name = env.submodules_of(tree.mods[m].source)[c].name();
            let file = tree.mods[m].source.file();
            &&& is_dir_owner(env.resolver.stem_of(file))
            &&& env.resolver.target_of(file, file_candidate(name)) is None
            &&& env.resolver.target_of(file, dir_candidate(name)) is None
        }),
    ensures
        ({
            let name = env.submodules_of(tree.mods[m].source)[c].name();
            let link = tree.links[tree.mods[m].children[c].0 as int];
            &&& link.points_to.len() == 0
            &&& link.problem == Some(
                ProblemView::UnresolvedModule { candidate: file_candidate(name) },
            )
        }),
{
    lemma_child_is_submodule(env, files, tree, m, c);
}

/// A definition gives an inline source in the file that holds it.
pub proof fn lemma_definitions_are_inline<R: FileResolver>(
    env: BuildEnv<R>,
    source: ModuleSource,
    c: int,
)
    requires
        0 <= c < env.submodules_of(source).len(),
    ensures
        env.submodules_of(source)[c] matches SubmoduleView::Definition(_, inner) ==> inner is Inline
            && inner.file() == source.file(),
{
}

/// In the tree of a source root, the link of a definition leads to exactly
/// one module, which is the module of the definition's source and has the
/// link as its parent, and it has no problem; unless another definition
/// in the tree carries the same source.
pub proof fn lemma_definition_link<R: FileResolver>(
    env: BuildEnv<R>,
    files: Seq<FileId>,
    tree: TreeView,
    m: int,
    c: int,
)
    requires
        is_module_tree(env, files, tree),
        0 <= m < tree.mods.len(),
        0 <= c < env.submodules_of(tree.mods[m].source).len(),
        env.submodules_of(tree.mods[m].source)[c] is Definition,
        forall|n: int, d: int|
            0 <= n < tree.mods.len() && 0 <= d < env.submodules_of(tree.mods[n].source).len() && (n
                != m || d != c) ==> !(#[trigger] env.submodules_of(
                tree.mods[n].source,
            )[d] matches SubmoduleView::Definition(_, inner) && inner == env.submodules_of(
                tree.mods[m].source,
            )[c]->Definition_1),
    ensures
        ({
            let inner = env.submodules_of(tree.mods[m].source)[c]->Definition_1;
            let child = tree.mods[m].children[c];
            let link = tree.links[child.0 as int];
            &&& link.problem is None
            &&& link.points_to.len() == 1
            &&& link.points_to[0].0 < tree.mods.len()
            &&& tree.mods[link.points_to[0].0 as int].source == inner
            &&& tree.mods[link.points_to[0].0 as int].parent == Some(child)
        }),
{
    lemma_child_is_submodule(env, files, tree, m, c);
    lemma_definitions_are_inline(env, tree.mods[m].source, c);
    let none = Set::<LinkId>::empty();
    let inner = env.submodules_of(tree.mods[m].source)[c]->Definition_1;
    let child = tree.mods[m].children[c];
    let link = tree.links[child.0 as int];
    if link.points_to.len() == 0 {
        // The source has its module under another link, which is the link
        // of another definition of the same source.
        let x = choose|x: int| 0 <= x < tree.mods.len() && (#[trigger] tree.mods[x]).source == inner;
        assert(tree.mods[x].parent is Some);
        let other = tree.mods[x].parent->Some_0;
        assert(!none.contains(other));
        assert(tree.links[other.0 as int].points_to.contains(ModuleId(x as usize)));
        let p = choose|p: int|
            0 <= p < tree.links[other.0 as int].points_to.len()
                && tree.links[other.0 as int].points_to[p] == ModuleId(x as usize);
        let n = tree.links[other.0 as int].owner.0 as int;
        assert(tree.mods[n].children.contains(LinkId(other.0)));
        let d = choose|d: int| 0 <= d < tree.mods[n].children.len() && tree.mods[n].children[d] == other;
        assert(!none.contains(tree.mods[n].children[d]));
        let sub = env.submodules_of(tree.mods[n].source)[d];
        assert(link_follows(env, tree, tree.mods[n].source, sub, tree.links[other.0 as int]));
        match sub {
            SubmoduleView::Declaration(name) => {
                let found = resolution(env.resolver, tree.mods[n].source, name);
                assert(among(
                    found.points_to,
                    tree.mods[tree.links[other.0 as int].points_to[p].0 as int].source,
                ));
            },
            SubmoduleView::Definition(_, again) => {
                assert(p == 0);
                assert(again == inner);
                assert(n != m || d != c);
            },
        }
        assert(false);
    }
    assert(tree.mods[link.points_to[0].0 as int].parent == Some(LinkId(child.0)));
}

} // verus!
