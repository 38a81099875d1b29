//! Building the module tree of a source root: the code that grows the
//! tree, proved to pass through the states that `build_state` describes.

use crate::build_state::{
    candidate_followed, candidates_followed, depth_limit, is_module_tree, lemma_follows_concluded,
    lemma_follows_kept, lemma_grown_twice, lemma_mirrors_done, lemma_mirrors_kept, link_follows,
    root_planted, roots_planted, submodule_expanded, submodules_expanded, subtree_built, BuildEnv,
    BuildState, CandidateRun,
};
use crate::cancel::{check_canceled, is_stale, Cancelable, RevisionClock};
use crate::db::{share, Snapshot};
use crate::following::{
    following, lemma_following_adopted, lemma_following_built, lemma_following_done,
    lemma_following_passed, lemma_linking_built, lemma_linking_concluded, linking,
};
use crate::fx::{RootTable, VisitedSet};
use crate::input::{FileId, FileResolver, SourceRoot, SourceRootId};
use crate::resolve::{resolve_submodule, Problem};
use crate::source::{submodules_now, ModuleSource, Submodule};
use crate::tree::{
    lemma_keeps_children_twice, lemma_push_link, lemma_push_link_linked, lemma_push_mod,
    lemma_push_mod_linked, lemma_same_sources, lemma_set_link, lemma_set_link_linked,
    lemma_set_parent, lemma_set_parent_linked, LinkDataView, LinkId, ModuleId, ModuleTree, TreeView,
};
use std::sync::Arc;
use vstd::prelude::*;

verus! {

/// The tree under construction with the books that are kept beside it.
struct Builder {
    tree: ModuleTree,
    visited: VisitedSet,
    roots: RootTable,
}

impl View for Builder {
    type V = BuildState;

    closed spec fn view(&self) -> BuildState {
        BuildState { tree: self.tree@, visited: self.visited@, roots: self.roots@ }
    }
}

impl Builder {
    /// The state before anything is built.
    fn new<R: FileResolver>(Ghost(env): Ghost<BuildEnv<R>>) -> (builder: Self)
        ensures
            builder@ == BuildState::empty(),
            builder@.sound(env, Set::empty(), Set::empty()),
    {
        Builder { tree: ModuleTree::new(), visited: VisitedSet::new(), roots: RootTable::new() }
    }

    /// The tree that was built.
    fn into_tree(self) -> (tree: ModuleTree)
        ensures
            tree@ == self@.tree,
    {
        self.tree
    }

    /// Tells whether `source` has its module already.
    fn is_visited(&self, source: ModuleSource) -> (found: bool)
        ensures
            found == self@.visited.contains(source),
    {
        self.visited.contains(source)
    }

    /// Adds the module for `source` under `parent`, which is an open link
    /// or none, and marks the source as visited. The module is active from
    /// now on.
    fn enter<R: FileResolver>(
        &mut self,
        source: ModuleSource,
        parent: Option<LinkId>,
        Ghost(env): Ghost<BuildEnv<R>>,
        Ghost(open): Ghost<Set<LinkId>>,
        Ghost(active): Ghost<Set<ModuleId>>,
    ) -> (id: ModuleId)
        requires
            old(self)@.sound(env, open, active),
            !old(self)@.visited.contains(source),
            parent matches Some(link) ==> open.contains(link),
            parent is None ==> source is SourceFile,
        ensures
            final(self)@ == old(self)@.enter(source, parent),
            final(self)@.sound(env, open, active.insert(id)),
            old(self)@.grown_to(final(self)@, Some(id)),
            old(self)@.tree.keeps_children(final(self)@.tree, None),
            id == old(self)@.next_module(),
            id.0 == old(self)@.tree.mods.len(),
            !final(self)@.is_root(id.0 as int),
    {
        proof {
            lemma_push_mod(self@.tree, source, parent);
        }
        self.visited.insert(source);
        let id = self.tree.push_mod(source, parent);
        proof {
            let before = old(self)@;
            let after = self@;
            self.tree.lemma_fits();
            lemma_push_mod_linked(before.tree, open, source, parent);
            assert forall|other: ModuleSource|
                after.visited.contains(other) <==> #[trigger] after.tree.has_module(other) by {
                assert(before.visited.contains(other) <==> before.tree.has_module(other));
            }
            assert forall|file: FileId| #[trigger] after.roots.contains_key(file) implies {
                &&& after.roots[file].0 < after.tree.mods.len()
                &&& after.tree.mods[after.roots[file].0 as int].source
                    == ModuleSource::SourceFile(file)
                &&& after.tree.mods[after.roots[file].0 as int].parent is None
            } by {
                assert(before.roots.contains_key(file));
                assert(after.tree.mods[before.roots[file].0 as int]
                    == before.tree.mods[before.roots[file].0 as int]);
            }
            assert(!before.tree.has_module(source));
            assert forall|m: int| 0 <= m < before.tree.mods.len() && !before.is_root(m) implies (
            #[trigger] after.tree.mods[m]).parent == before.tree.mods[m].parent by {
                assert(after.tree.mods[m] == before.tree.mods[m]);
            }
            if after.is_root(id.0 as int) {
                let file = source->SourceFile_0;
                assert(before.roots.contains_key(file));
                let root = before.roots[file];
                assert(before.tree.mods[root.0 as int].source == source);
                assert(before.tree.has_module(source));
            }
            assert forall|m: int| 0 <= m < after.tree.mods.len() implies {
                &&& (#[trigger] after.tree.mods[m]).children.len() <= env.submodules_of(
                    after.tree.mods[m].source,
                ).len()
                &&& !active.insert(id).contains(ModuleId(m as usize))
                    ==> after.tree.mods[m].children.len() == env.submodules_of(
                    after.tree.mods[m].source,
                ).len()
            } by {
                if m < before.tree.mods.len() {
                    assert(after.tree.mods[m] == before.tree.mods[m]);
                }
            }
            assert forall|m: int, c: int|
                0 <= m < after.tree.mods.len() && 0 <= c
                    < after.tree.mods[m].children.len() implies after.tree.links[(
            #[trigger] after.tree.mods[m].children[c]).0 as int].name == env.submodules_of(
                after.tree.mods[m].source,
            )[c].name() by {
                assert(after.tree.mods[m] == before.tree.mods[m]);
                assert(after.tree.mods[m].children[c] == before.tree.mods[m].children[c]);
            }
            assert forall|m: int, c: int|
                0 <= m < after.tree.mods.len() && 0 <= c < after.tree.mods[m].children.len()
                    && !open.contains(#[trigger] after.tree.mods[m].children[c]) implies {
                &&& m < before.tree.mods.len()
                &&& c < before.tree.mods[m].children.len()
                &&& before.tree.mods[m].children[c] == after.tree.mods[m].children[c]
                &&& !open.contains(before.tree.mods[m].children[c])
                &&& after.tree.links[after.tree.mods[m].children[c].0 as int]
                    == before.tree.links[before.tree.mods[m].children[c].0 as int]
            } by {
                assert(after.tree.mods[m] == before.tree.mods[m]);
            }
            lemma_follows_kept(env, before.tree, after.tree, open, open);
            assert forall|m: int| 0 <= m < before.tree.mods.len() implies (
            #[trigger] after.tree.mods[m]).children == before.tree.mods[m].children by {
                assert(after.tree.mods[m] == before.tree.mods[m]);
            }
        }
        id
    }

    /// Adds the link that `owner` declares under `name`, for the next of
    /// the submodules that its source declares. The link is open from now
    /// on.
    fn declare<R: FileResolver>(
        &mut self,
        name: String,
        owner: ModuleId,
        Ghost(env): Ghost<BuildEnv<R>>,
        Ghost(open): Ghost<Set<LinkId>>,
        Ghost(active): Ghost<Set<ModuleId>>,
    ) -> (link: LinkId)
        requires
            old(self)@.sound(env, open, active),
            owner.0 < old(self)@.tree.mods.len(),
            ({
                let holder = old(self)@.tree.mods[owner.0 as int];
                let subs = env.submodules_of(holder.source);
                holder.children.len() < subs.len() && name@ == subs[holder.children.len() as int].name()
            }),
        ensures
            final(self)@ == old(self)@.declare(name@, owner),
            link == old(self)@.next_link(),
            linking(env, old(self)@, final(self)@, open, active, link, owner, Seq::empty()),
    {
        let link = self.tree.push_link(name, owner);
        proof {
            let before = old(self)@;
            let after = self@;
            let wider = open.insert(link);
            let reached = before.tree.mods[owner.0 as int].children.len() as int;
            self.tree.lemma_fits();
            lemma_push_link(before.tree, name@, owner);
            lemma_push_link_linked(before.tree, open, name@, owner);
            lemma_same_sources(after.tree, before.tree);
            assert forall|file: FileId| #[trigger] after.roots.contains_key(file) implies {
                &&& after.roots[file].0 < after.tree.mods.len()
                &&& after.tree.mods[after.roots[file].0 as int].source
                    == ModuleSource::SourceFile(file)
                &&& after.tree.mods[after.roots[file].0 as int].parent is None
            } by {
                assert(before.roots.contains_key(file));
                assert(after.tree.mods[before.roots[file].0 as int].parent
                    == before.tree.mods[before.roots[file].0 as int].parent);
            }
            assert forall|m: int| 0 <= m < before.tree.mods.len() && !before.is_root(m) implies (
            #[trigger] after.tree.mods[m]).parent == before.tree.mods[m].parent by {}
            assert forall|m: int| 0 <= m < after.tree.mods.len() implies {
                &&& (#[trigger] after.tree.mods[m]).children.len() <= env.submodules_of(
                    after.tree.mods[m].source,
                ).len()
                &&& !active.contains(ModuleId(m as usize)) ==> after.tree.mods[m].children.len()
                    == env.submodules_of(after.tree.mods[m].source).len()
            } by {
                assert(after.tree.mods[m].source == before.tree.mods[m].source);
                if m != owner.0 {
                    assert(after.tree.mods[m] == before.tree.mods[m]);
                }
            }
            assert forall|m: int, c: int|
                0 <= m < after.tree.mods.len() && 0 <= c
                    < after.tree.mods[m].children.len() implies after.tree.links[(
            #[trigger] after.tree.mods[m].children[c]).0 as int].name == env.submodules_of(
                after.tree.mods[m].source,
            )[c].name() by {
                assert(after.tree.mods[m].source == before.tree.mods[m].source);
                if m == owner.0 && c == reached {
                    assert(after.tree.mods[m].children[c] == link);
                } else {
                    assert(after.tree.mods[m].children[c] == before.tree.mods[m].children[c]);
                    let child = before.tree.mods[m].children[c];
                    assert(child.0 < before.tree.links.len());
                    assert(after.tree.links[child.0 as int] == before.tree.links[child.0 as int]);
                }
            }
            assert forall|m: int, c: int|
                0 <= m < after.tree.mods.len() && 0 <= c < after.tree.mods[m].children.len()
                    && !wider.contains(#[trigger] after.tree.mods[m].children[c]) implies {
                &&& m < before.tree.mods.len()
                &&& c < before.tree.mods[m].children.len()
                &&& before.tree.mods[m].children[c] == after.tree.mods[m].children[c]
                &&& !open.contains(before.tree.mods[m].children[c])
                &&& after.tree.links[after.tree.mods[m].children[c].0 as int]
                    == before.tree.links[before.tree.mods[m].children[c].0 as int]
            } by {
                if m == owner.0 && c == reached {
                    assert(after.tree.mods[m].children[c] == link);
                } else {
                    assert(before.tree.mods[m].children[c] == after.tree.mods[m].children[c]);
                    assert(before.tree.mods[m].children[c].0 < before.tree.links.len());
                }
            }
            lemma_follows_kept(env, before.tree, after.tree, open, wider);
            assert forall|m: int, c: int|
                0 <= m < after.tree.mods.len() && 0 <= c < after.tree.mods[m].children.len() && (
                #[trigger] after.tree.mods[m].children[c]) == link implies m == owner.0 && c
                == reached by {
                if !(m == owner.0 && c == reached) {
                    assert(before.tree.mods[m].children[c] == after.tree.mods[m].children[c]);
                    assert(before.tree.mods[m].children[c].0 < before.tree.links.len());
                }
            }
            assert forall|m: int| 0 <= m < after.tree.mods.len() implies (
            #[trigger] after.tree.mods[m]).parent != Some(link) by {
                assert(after.tree.mods[m].parent == before.tree.mods[m].parent);
            }
            assert(!open.contains(link));
        }
        link
    }

    /// If `file` stands as a root, makes the root a child of the open link
    /// `link` and hands it out.
    fn adopt<R: FileResolver>(
        &mut self,
        file: FileId,
        link: LinkId,
        Ghost(env): Ghost<BuildEnv<R>>,
        Ghost(open): Ghost<Set<LinkId>>,
        Ghost(active): Ghost<Set<ModuleId>>,
    ) -> (module: Option<ModuleId>)
        requires
            old(self)@.sound(env, open, active),
            open.contains(link),
        ensures
            final(self)@.sound(env, open, active),
            match module {
                Some(root) => old(self)@.roots.contains_key(file) && root == old(self)@.roots[file]
                    && final(self)@ == old(self)@.adopt(file, link),
                None => !old(self)@.roots.contains_key(file) && final(self)@ == old(self)@,
            },
    {
        match self.roots.remove(file) {
            Some(root) => {
                assert(old(self)@.roots.contains_key(file));
                self.tree.set_parent(root, link);
                proof {
                    let before = old(self)@;
                    let after = self@;
                    lemma_set_parent(before.tree, root, link);
                    lemma_set_parent_linked(before.tree, open, root, link);
                    lemma_same_sources(after.tree, before.tree);
                    assert forall|other: FileId| #[trigger] after.roots.contains_key(other) implies {
                        &&& after.roots[other].0 < after.tree.mods.len()
                        &&& after.tree.mods[after.roots[other].0 as int].source
                            == ModuleSource::SourceFile(other)
                        &&& after.tree.mods[after.roots[other].0 as int].parent is None
                    } by {
                        assert(before.roots.contains_key(other));
                        assert(before.roots.contains_key(file));
                        let it = before.roots[other];
                        if it.0 == root.0 {
                            assert(before.tree.mods[it.0 as int].source
                                == ModuleSource::SourceFile(other));
                            assert(before.tree.mods[root.0 as int].source
                                == ModuleSource::SourceFile(file));
                        }
                        assert(after.tree.mods[it.0 as int] == before.tree.mods[it.0 as int]);
                    }
                    assert(before.tree.same_declarations(after.tree));
                    lemma_mirrors_kept(env, before.tree, after.tree, active);
                    assert forall|m: int, c: int|
                        0 <= m < after.tree.mods.len() && 0 <= c
                            < after.tree.mods[m].children.len() && !open.contains(
                            #[trigger] after.tree.mods[m].children[c],
                        ) implies {
                        &&& m < before.tree.mods.len()
                        &&& c < before.tree.mods[m].children.len()
                        &&& before.tree.mods[m].children[c] == after.tree.mods[m].children[c]
                        &&& !open.contains(before.tree.mods[m].children[c])
                        &&& after.tree.links[after.tree.mods[m].children[c].0 as int]
                            == before.tree.links[before.tree.mods[m].children[c].0 as int]
                    } by {
                        assert(after.tree.mods[m].children == before.tree.mods[m].children);
                    }
                    lemma_follows_kept(env, before.tree, after.tree, open, open);
                }
                Some(root)
            },
            None => {
                assert(self@.roots =~= old(self)@.roots);
                None
            },
        }
    }

    /// Closes the open link `link`, which is the child of `owner` at the
    /// place `at`: it leads to `points_to`, which are the modules that have
    /// it as their parent, and carries `problem`; and that is what
    /// following the submodule at its place leads to.
    fn conclude<R: FileResolver>(
        &mut self,
        link: LinkId,
        points_to: Vec<ModuleId>,
        problem: Option<Problem>,
        Ghost(env): Ghost<BuildEnv<R>>,
        Ghost(open): Ghost<Set<LinkId>>,
        Ghost(active): Ghost<Set<ModuleId>>,
        Ghost(owner): Ghost<ModuleId>,
        Ghost(at): Ghost<int>,
    )
        requires
            old(self)@.sound(env, open, active),
            open.contains(link),
            owner.0 < old(self)@.tree.mods.len(),
            old(self)@.tree.children_of(link, points_to@),
            old(self)@.tree.only_place(link, owner, at),
            0 <= at < env.submodules_of(old(self)@.tree.mods[owner.0 as int].source).len()
                ==> link_follows(
                env,
                old(self)@.tree,
                old(self)@.tree.mods[owner.0 as int].source,
                env.submodules_of(old(self)@.tree.mods[owner.0 as int].source)[at],
                LinkDataView {
                    points_to: points_to@,
                    problem: problem.deep_view(),
                    ..old(self)@.tree.links[link.0 as int]
                },
            ),
        ensures
            final(self)@ == old(self)@.conclude(link, points_to@, problem.deep_view()),
            final(self)@.sound(env, open.remove(link), active),
            old(self)@.grown_to(final(self)@, None),
    {
        proof {
            let before = self@.tree;
            lemma_set_link(before, link, points_to@, problem.deep_view());
            lemma_set_link_linked(before, open, link, points_to@, problem.deep_view());
            lemma_follows_concluded(
                env,
                before,
                open,
                link,
                points_to@,
                problem.deep_view(),
                owner,
                at,
            );
        }
        self.tree.set_link(link, points_to, problem);
        proof {
            lemma_same_sources(self@.tree, old(self)@.tree);
            assert(old(self)@.tree.same_declarations(self@.tree));
            lemma_mirrors_kept(env, old(self)@.tree, self@.tree, active);
        }
    }

    /// Records the module `module`, which has no parent, as the root that
    /// stands for `file`.
    fn plant<R: FileResolver>(
        &mut self,
        file: FileId,
        module: ModuleId,
        Ghost(env): Ghost<BuildEnv<R>>,
        Ghost(open): Ghost<Set<LinkId>>,
        Ghost(active): Ghost<Set<ModuleId>>,
    )
        requires
            old(self)@.sound(env, open, active),
            module.0 < old(self)@.tree.mods.len(),
            old(self)@.tree.mods[module.0 as int].source == ModuleSource::SourceFile(file),
            old(self)@.tree.mods[module.0 as int].parent is None,
        ensures
            final(self)@ == old(self)@.plant(file, module),
            final(self)@.sound(env, open, active),
    {
        self.roots.insert(file, module);
        proof {
            assert forall|other: FileId| #[trigger] self@.roots.contains_key(other) implies {
                &&& self@.roots[other].0 < self@.tree.mods.len()
                &&& self@.tree.mods[self@.roots[other].0 as int].source
                    == ModuleSource::SourceFile(other)
                &&& self@.tree.mods[self@.roots[other].0 as int].parent is None
            } by {
                if other != file {
                    assert(old(self)@.roots.contains_key(other));
                }
            }
        }
    }
}

/// What the tree of a source root is built from, given the database that
/// holds the items of the files and the resolver of the source root.
pub open spec fn build_env<R: FileResolver>(db: &Snapshot<R>, resolver: R) -> BuildEnv<R> {
    BuildEnv { resolver, syntax: db.syntax() }
}

/// Adds the module for `source` and everything below it under `parent`.
/// The probe is asked once for each module, before the module is added:
/// where it says yes at once, nothing is added and nothing is marked as
/// visited.
fn build_subtree<R: FileResolver, C: Fn() -> bool>(
    db: &mut Snapshot<R>,
    canceled: &C,
    source_root: &SourceRoot<R>,
    builder: &mut Builder,
    parent: Option<LinkId>,
    source: ModuleSource,
    Ghost(depth): Ghost<nat>,
    Ghost(open): Ghost<Set<LinkId>>,
    Ghost(active): Ghost<Set<ModuleId>>,
) -> (res: Cancelable<ModuleId>)
    requires
        old(db).wf(),
        call_requires(*canceled, ()),
        old(builder)@.sound(build_env(old(db), source_root.resolver()), open, active),
        !old(builder)@.visited.contains(source),
        parent matches Some(link) ==> open.contains(link),
        parent is None ==> source is SourceFile,
        depth + old(builder)@.tree.mods.len() >= depth_limit(),
    ensures
        final(db).wf(),
        final(db).grown_from(old(db)),
        (forall|said: bool| call_ensures(*canceled, (), said) ==> said) ==> {
            &&& res is Err
            &&& final(builder)@ == old(builder)@
            &&& final(db).memoized_submodules() == old(db).memoized_submodules()
        },
        res is Err ==> call_ensures(*canceled, (), true),
        res matches Ok(id) ==> {
            &&& call_ensures(*canceled, (), false)
            &&& id == old(builder)@.next_module()
            &&& final(builder)@ == subtree_built(
                build_env(old(db), source_root.resolver()),
                depth,
                old(builder)@,
                parent,
                source,
            )
            &&& final(builder)@.sound(build_env(old(db), source_root.resolver()), open, active)
            &&& old(builder)@.grown_to(final(builder)@, Some(id))
            &&& old(builder)@.tree.keeps_children(final(builder)@.tree, None)
            &&& id.0 < final(builder)@.tree.mods.len()
            &&& final(builder)@.tree.mods[id.0 as int].source == source
            &&& final(builder)@.tree.mods[id.0 as int].parent == parent
        },
    decreases depth, 0nat,
{
    match check_canceled(canceled()) {
        Err(canceled) => {
            return Err(canceled);
        },
        Ok(()) => {},
    }
    let ghost env = build_env(old(db), source_root.resolver());
    let id = builder.enter::<R>(source, parent, Ghost(env), Ghost(open), Ghost(active));
    let ghost entered = builder@;
    let ghost expanding = active.insert(id);
    let subs = submodules_now(db, source);
    let ghost below = (depth - 1) as nat;
    let mut at: usize = 0;
    while at < subs.len()
        invariant
            db.wf(),
            db.grown_from(old(db)),
            call_requires(*canceled, ()),
            call_ensures(*canceled, (), false),
            env == build_env(old(db), source_root.resolver()),
            expanding == active.insert(id),
            builder@.sound(env, open, expanding),
            entered.grown_to(builder@, None),
            entered.tree.keeps_children(builder@.tree, Some(id)),
            id.0 < entered.tree.mods.len(),
            !entered.is_root(id.0 as int),
            entered.tree.mods[id.0 as int].source == source,
            builder@.tree.mods[id.0 as int].children.len() == at,
            at <= subs.len(),
            subs.deep_view() == env.submodules_of(source),
            depth >= 1,
            below == depth - 1,
            below + builder@.tree.mods.len() >= depth_limit(),
            submodules_expanded(env, below, builder@, id, source, subs.deep_view(), at as int)
                == submodules_expanded(env, below, entered, id, source, subs.deep_view(), 0),
        decreases subs.len() - at,
    {
        let ghost before = builder@;
        proof {
            assert(before.tree.mods[id.0 as int].source == entered.tree.mods[id.0 as int].source);
            assert(subs.deep_view()[at as int] == subs[at as int].deep_view());
        }
        match expand_submodule(
            db,
            canceled,
            source_root,
            builder,
            id,
            source,
            &subs[at],
            Ghost(below),
            Ghost(open),
            Ghost(expanding),
        ) {
            Err(canceled) => {
                return Err(canceled);
            },
            Ok(()) => {},
        }
        proof {
            lemma_grown_twice(entered, before, builder@, None);
            lemma_keeps_children_twice(entered.tree, before.tree, builder@.tree, Some(id));
        }
        at = at + 1;
    }
    proof {
        let grown = builder@;
        lemma_grown_twice(old(builder)@, entered, grown, Some(id));
        assert(grown.tree.mods[id.0 as int].source == entered.tree.mods[id.0 as int].source);
        assert(grown.tree.mods[id.0 as int].parent == entered.tree.mods[id.0 as int].parent);
        lemma_mirrors_done(env, grown.tree, active, id);
        assert forall|m: int| 0 <= m < old(builder)@.tree.mods.len() implies (
        #[trigger] grown.tree.mods[m]).children == old(builder)@.tree.mods[m].children by {
            assert(entered.tree.mods[m].children == old(builder)@.tree.mods[m].children);
            assert(ModuleId(m as usize) != id);
        }
    }
    Ok(id)
}

/// Adds the link for the submodule `sub` of the module `owner`, whose
/// source is `source`, and follows it: to the files that a declaration
/// resolves to, or to the source that a definition carries.
fn expand_submodule<R: FileResolver, C: Fn() -> bool>(
    db: &mut Snapshot<R>,
    canceled: &C,
    source_root: &SourceRoot<R>,
    builder: &mut Builder,
    owner: ModuleId,
    source: ModuleSource,
    sub: &Submodule,
    Ghost(depth): Ghost<nat>,
    Ghost(open): Ghost<Set<LinkId>>,
    Ghost(active): Ghost<Set<ModuleId>>,
) -> (res: Cancelable<()>)
    requires
        old(db).wf(),
        call_requires(*canceled, ()),
        old(builder)@.sound(build_env(old(db), source_root.resolver()), open, active),
        owner.0 < old(builder)@.tree.mods.len(),
        old(builder)@.tree.mods[owner.0 as int].source == source,
        ({
            let subs = build_env(old(db), source_root.resolver()).submodules_of(source);
            let reached = old(builder)@.tree.mods[owner.0 as int].children.len() as int;
            reached < subs.len() && sub.deep_view() == subs[reached]
        }),
        depth + old(builder)@.tree.mods.len() >= depth_limit(),
    ensures
        final(db).wf(),
        final(db).grown_from(old(db)),
        res is Err ==> call_ensures(*canceled, (), true),
        res is Ok ==> {
            &&& final(builder)@ == submodule_expanded(
                build_env(old(db), source_root.resolver()),
                depth,
                old(builder)@,
                owner,
                source,
                sub.deep_view(),
            )
            &&& final(builder)@.sound(build_env(old(db), source_root.resolver()), open, active)
            &&& old(builder)@.grown_to(final(builder)@, None)
            &&& old(builder)@.tree.keeps_children(final(builder)@.tree, Some(owner))
            &&& final(builder)@.tree.mods[owner.0 as int].children.len() == old(
                builder,
            )@.tree.mods[owner.0 as int].children.len() + 1
        },
    decreases depth, 2nat,
{
    let ghost env = build_env(old(db), source_root.resolver());
    let ghost start = builder@;
    let ghost wider = open.insert(start.next_link());
    let ghost place = start.tree.mods[owner.0 as int].children.len() as int;
    let link = builder.declare::<R>(sub.name().clone(), owner, Ghost(env), Ghost(open), Ghost(active));
    let ghost linked = builder@;
    let mut points_to: Vec<ModuleId> = Vec::new();
    let problem = match sub {
        Submodule::Declaration(name) => {
            let (files, found_problem) = resolve_submodule(source, name, source_root.file_resolver());
            let revisited = match follow_candidates(
                db,
                canceled,
                source_root,
                builder,
                link,
                &files,
                &mut points_to,
                Ghost(depth),
                Ghost(start),
                Ghost(open),
                Ghost(active),
                Ghost(owner),
            ) {
                Err(canceled) => {
                    return Err(canceled);
                },
                Ok(revisited) => revisited,
            };
            proof {
                lemma_following_done(
                    env,
                    start,
                    builder@,
                    open,
                    active,
                    link,
                    owner,
                    source,
                    name@,
                    points_to@,
                    revisited,
                );
            }
            match found_problem {
                Some(problem) => Some(problem),
                None => match revisited {
                    Some(source) => Some(Problem::AlreadyVisited { source }),
                    None => None,
                },
            }
        },
        Submodule::Definition(_, inner) => {
            if builder.is_visited(*inner) {
                Some(Problem::AlreadyVisited { source: *inner })
            } else {
                match build_subtree(
                    db,
                    canceled,
                    source_root,
                    builder,
                    Some(link),
                    *inner,
                    Ghost(depth),
                    Ghost(wider),
                    Ghost(active),
                ) {
                    Err(canceled) => {
                        return Err(canceled);
                    },
                    Ok(module) => {
                        points_to.push(module);
                        proof {
                            lemma_linking_built(
                                env,
                                start,
                                linked,
                                builder@,
                                open,
                                active,
                                link,
                                owner,
                                Seq::empty(),
                                module,
                            );
                            assert(points_to@ =~= seq![module]);
                        }
                        None
                    },
                }
            }
        },
    };
    let ghost followed = builder@;
    let ghost targets = points_to@;
    let ghost concluded = problem.deep_view();
    proof {
        assert(followed.tree.mods[owner.0 as int].source == source);
    }
    builder.conclude::<R>(
        link,
        points_to,
        problem,
        Ghost(env),
        Ghost(wider),
        Ghost(active),
        Ghost(owner),
        Ghost(place),
    );
    proof {
        lemma_linking_concluded(
            env,
            start,
            followed,
            builder@,
            open,
            active,
            link,
            owner,
            targets,
            concluded,
        );
    }
    Ok(())
}

/// Follows the candidates `files` of the declaration `link`, in their
/// order: a root is taken over, a file that has its module already is
/// passed over, and any other file is expanded. The modules found are
/// added to `points_to`; the result is the first file that was passed
/// over, if any was.
fn follow_candidates<R: FileResolver, C: Fn() -> bool>(
    db: &mut Snapshot<R>,
    canceled: &C,
    source_root: &SourceRoot<R>,
    builder: &mut Builder,
    link: LinkId,
    files: &Vec<FileId>,
    points_to: &mut Vec<ModuleId>,
    Ghost(depth): Ghost<nat>,
    Ghost(start): Ghost<BuildState>,
    Ghost(open): Ghost<Set<LinkId>>,
    Ghost(active): Ghost<Set<ModuleId>>,
    Ghost(owner): Ghost<ModuleId>,
) -> (res: Cancelable<Option<ModuleSource>>)
    requires
        old(db).wf(),
        call_requires(*canceled, ()),
        old(points_to)@.len() == 0,
        linking(
            build_env(old(db), source_root.resolver()),
            start,
            old(builder)@,
            open,
            active,
            link,
            owner,
            Seq::empty(),
        ),
        depth + old(builder)@.tree.mods.len() >= depth_limit(),
    ensures
        final(db).wf(),
        final(db).grown_from(old(db)),
        res is Err ==> call_ensures(*canceled, (), true),
        res matches Ok(revisited) ==> {
            &&& CandidateRun {
                state: final(builder)@,
                points_to: final(points_to)@,
                revisited,
            } == candidates_followed(
                build_env(old(db), source_root.resolver()),
                depth,
                CandidateRun { state: old(builder)@, points_to: Seq::empty(), revisited: None },
                link,
                files@,
                0,
            )
            &&& following(
                build_env(old(db), source_root.resolver()),
                start,
                final(builder)@,
                open,
                active,
                link,
                owner,
                files@,
                files@.len() as int,
                final(points_to)@,
                revisited,
            )
        },
    decreases depth, 1nat,
{
    let ghost env = build_env(old(db), source_root.resolver());
    let ghost wider = open.insert(link);
    let ghost first = CandidateRun {
        state: old(builder)@,
        points_to: Seq::empty(),
        revisited: None,
    };
    let mut revisited: Option<ModuleSource> = None;
    let mut at: usize = 0;
    proof {
        assert(points_to@ =~= Seq::empty());
    }
    while at < files.len()
        invariant
            db.wf(),
            db.grown_from(old(db)),
            call_requires(*canceled, ()),
            env == build_env(old(db), source_root.resolver()),
            wider == open.insert(link),
            following(
                env,
                start,
                builder@,
                open,
                active,
                link,
                owner,
                files@,
                at as int,
                points_to@,
                revisited,
            ),
            depth + builder@.tree.mods.len() >= depth_limit(),
            candidates_followed(
                env,
                depth,
                CandidateRun { state: builder@, points_to: points_to@, revisited },
                link,
                files@,
                at as int,
            ) == candidates_followed(env, depth, first, link, files@, 0),
        decreases files.len() - at,
    {
        let file = files[at];
        let target = ModuleSource::SourceFile(file);
        let ghost before = builder@;
        let ghost found = points_to@;
        let ghost run = CandidateRun { state: before, points_to: found, revisited };
        match builder.adopt::<R>(file, link, Ghost(env), Ghost(wider), Ghost(active)) {
            Some(root) => {
                points_to.push(root);
                proof {
                    lemma_following_adopted(
                        env,
                        start,
                        before,
                        builder@,
                        open,
                        active,
                        link,
                        owner,
                        files@,
                        at as int,
                        found,
                        revisited,
                    );
                }
            },
            None => {
                if builder.is_visited(target) {
                    proof {
                        lemma_following_passed(
                            env,
                            start,
                            before,
                            open,
                            active,
                            link,
                            owner,
                            files@,
                            at as int,
                            found,
                            revisited,
                        );
                    }
                    if revisited.is_none() {
                        revisited = Some(target);
                    }
                } else {
                    match build_subtree(
                        db,
                        canceled,
                        source_root,
                        builder,
                        Some(link),
                        target,
                        Ghost(depth),
                        Ghost(wider),
                        Ghost(active),
                    ) {
                        Err(canceled) => {
                            return Err(canceled);
                        },
                        Ok(module) => {
                            points_to.push(module);
                            proof {
                                lemma_following_built(
                                    env,
                                    start,
                                    before,
                                    builder@,
                                    open,
                                    active,
                                    link,
                                    owner,
                                    files@,
                                    at as int,
                                    found,
                                    revisited,
                                    module,
                                );
                            }
                        },
                    }
                }
            },
        }
        proof {
            let next = CandidateRun { state: builder@, points_to: points_to@, revisited };
            assert(next == candidate_followed(env, depth, run, link, file));
            assert(candidates_followed(env, depth, run, link, files@, at as int)
                == candidates_followed(env, depth, next, link, files@, at + 1));
        }
        at = at + 1;
    }
    Ok(revisited)
}

/// Builds the module tree of `source_root` from nothing.
fn create_module_tree<R: FileResolver, C: Fn() -> bool>(
    db: &mut Snapshot<R>,
    canceled: &C,
    source_root: &SourceRoot<R>,
) -> (res: Cancelable<ModuleTree>)
    requires
        old(db).wf(),
        call_requires(*canceled, ()),
    ensures
        final(db).wf(),
        final(db).grown_from(old(db)),
        res is Err ==> call_ensures(*canceled, (), true),
        res matches Ok(tree) ==> is_module_tree(
            build_env(old(db), source_root.resolver()),
            source_root.members(),
            tree@,
        ),
{
    let ghost env = build_env(old(db), source_root.resolver());
    let ghost none = Set::<LinkId>::empty();
    let ghost idle = Set::<ModuleId>::empty();
    let mut builder = Builder::new::<R>(Ghost(env));
    let files = source_root.files();
    let mut at: usize = 0;
    while at < files.len()
        invariant
            db.wf(),
            db.grown_from(old(db)),
            call_requires(*canceled, ()),
            none == Set::<LinkId>::empty(),
            idle == Set::<ModuleId>::empty(),
            builder@.sound(env, none, idle),
            at <= files.len(),
            files@ == source_root.members(),
            env == build_env(old(db), source_root.resolver()),
            forall|k: int|
                0 <= k < at ==> builder@.visited.contains(
                    ModuleSource::SourceFile(#[trigger] files@[k]),
                ),
            roots_planted(env, builder@, files@, at as int) == roots_planted(
                env,
                BuildState::empty(),
                files@,
                0,
            ),
        decreases files.len() - at,
    {
        let file = files[at];
        let source = ModuleSource::SourceFile(file);
        let ghost before = builder@;
        if !builder.is_visited(source) {
            let module = match build_subtree(
                db,
                canceled,
                source_root,
                &mut builder,
                None,
                source,
                Ghost(depth_limit()),
                Ghost(none),
                Ghost(idle),
            ) {
                Err(canceled) => {
                    return Err(canceled);
                },
                Ok(module) => module,
            };
            proof {
                assert(builder@.tree.mods[module.0 as int].source == source);
                assert(builder@.tree.has_module(source));
            }
            builder.plant::<R>(file, module, Ghost(env), Ghost(none), Ghost(idle));
        }
        proof {
            assert(builder@ == root_planted(env, before, file));
            assert(roots_planted(env, before, files@, at as int) == roots_planted(
                env,
                builder@,
                files@,
                at + 1,
            ));
            assert(builder@.visited.contains(source));
        }
        at = at + 1;
    }
    let tree = builder.into_tree();
    proof {
        assert forall|k: int| 0 <= k < files@.len() implies tree@.has_module(
            ModuleSource::SourceFile(#[trigger] files@[k]),
        ) by {
            assert(builder@.visited.contains(ModuleSource::SourceFile(files@[k])));
        }
    }
    Ok(tree)
}

/// The module tree of the source root `source_root`, unless the probe
/// `canceled` says that the query is canceled.
///
/// The probe is asked at the start of the query and once for every module
/// that is added to the tree. The tree is taken from the memo table of `db`
/// if it is there, and built if it is not; it is memoized from then on, and
/// so are the submodules of the sources that the build came by. A query
/// that is canceled memoizes no tree. The source root must be known to
/// `db`.
pub fn module_tree_unless<R: FileResolver, C: Fn() -> bool>(
    db: &mut Snapshot<R>,
    canceled: &C,
    source_root: SourceRootId,
) -> (res: Cancelable<Arc<ModuleTree>>)
    requires
        old(db).wf(),
        old(db).source_roots().contains_key(source_root),
        call_requires(*canceled, ()),
    ensures
        final(db).wf(),
        final(db).same_inputs(old(db)),
        final(db).remembers(old(db)),
        (forall|said: bool| call_ensures(*canceled, (), said) ==> said) ==> {
            &&& res is Err
            &&& final(db).memoized_submodules() == old(db).memoized_submodules()
        },
        res is Err ==> call_ensures(*canceled, (), true) && final(db).memoized_trees() == old(
            db,
        ).memoized_trees(),
        res matches Ok(tree) ==> {
            &&& call_ensures(*canceled, (), false)
            &&& old(db).is_tree_of(source_root, tree@)
            &&& final(db).memoized_trees() == old(db).memoized_trees().insert(source_root, tree@)
        },
{
    match check_canceled(canceled()) {
        Err(canceled) => {
            return Err(canceled);
        },
        Ok(()) => {},
    }
    match db.cached_tree(source_root) {
        Some(tree) => {
            assert(db.memoized_trees() =~= db.memoized_trees().insert(source_root, tree@));
            return Ok(tree);
        },
        None => {},
    }
    let root = match db.source_root(source_root) {
        Some(root) => root,
        None => vstd::pervasive::unreached(),
    };
    match create_module_tree(db, canceled, &root) {
        Err(canceled) => Err(canceled),
        Ok(tree) => {
            let tree = Arc::new(tree);
            db.remember_tree(source_root, share(&tree));
            Ok(tree)
        },
    }
}

/// The module tree of the source root `source_root`, which must be known
/// to `db`.
///
/// The query is canceled exactly if `clock` has moved past the revision of
/// `db`, and then nothing is done; otherwise it gives the tree, which is
/// memoized from then on.
pub fn module_tree<R: FileResolver>(
    db: &mut Snapshot<R>,
    clock: &RevisionClock,
    source_root: SourceRootId,
) -> (res: Cancelable<Arc<ModuleTree>>)
    requires
        old(db).wf(),
        old(db).source_roots().contains_key(source_root),
    ensures
        final(db).wf(),
        final(db).same_inputs(old(db)),
        final(db).remembers(old(db)),
        res is Err <==> is_stale(clock@, old(db).revision()),
        res is Err ==> final(db).grown_from(old(db)) && final(db).memoized_submodules() == old(
            db,
        ).memoized_submodules(),
        res matches Ok(tree) ==> {
            &&& old(db).is_tree_of(source_root, tree@)
            &&& final(db).memoized_trees() == old(db).memoized_trees().insert(source_root, tree@)
        },
{
    let started_at = db.pinned_revision();
    let canceled = || -> (stale: bool)
        ensures
            stale == is_stale(clock@, started_at),
        { clock.is_canceled(started_at) };
    module_tree_unless(db, &canceled, source_root)
}

/// The tree of a source root is a function of the inputs: two snapshots
/// with the same inputs, such as a database and its fork or one snapshot
/// asked twice, have the same tree for each source root.
pub proof fn lemma_same_inputs_same_tree<R: FileResolver>(
    a: &Snapshot<R>,
    b: &Snapshot<R>,
    id: SourceRootId,
    tree_a: TreeView,
    tree_b: TreeView,
)
    requires
        a.same_inputs(b),
        a.is_tree_of(id, tree_a),
        b.is_tree_of(id, tree_b),
    ensures
        tree_a == tree_b,
{
}

} // verus!
