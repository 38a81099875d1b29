//! What holds while one link is followed: from the moment the link is
//! declared, over every candidate that is taken over, passed over or
//! expanded, to the moment the link is concluded.

use crate::build_state::{
    among, lemma_among_last, lemma_among_more, lemma_grown_by_adopting, lemma_grown_twice,
    lemma_grown_under_new_link, lemma_one_place, link_follows, link_problem, BuildEnv, BuildState,
};
use crate::input::{FileId, FileResolver};
use crate::resolve::{resolution, ProblemView};
use crate::source::{ModuleSource, SubmoduleView};
use crate::tree::{lemma_keeps_children_twice, LinkDataView, LinkId, ModuleId};
use vstd::prelude::*;

verus! {

/// States that `now` is a state in which `link` is being followed.
///
/// The link was declared by `owner` in the state `start`, as the next of
/// its children, and is open since, beside the links in `open`. The state
/// is sound and has grown from `start`; `points_to` are the modules that
/// have come under the link.
pub open spec fn linking<R: FileResolver>(
    env: BuildEnv<R>,
    start: BuildState,
    now: BuildState,
    open: Set<LinkId>,
    active: Set<ModuleId>,
    link: LinkId,
    owner: ModuleId,
    points_to: Seq<ModuleId>,
) -> bool {
    &&& now.sound(env, open.insert(link), active)
    &&& !open.contains(link)
    &&& owner.0 < start.tree.mods.len()
    &&& link.0 == start.tree.links.len()
    &&& link.0 < now.tree.links.len()
    &&& now.tree.links[link.0 as int].owner == owner
    &&& start.grown_to(now, None)
    &&& start.tree.keeps_children(now.tree, Some(owner))
    &&& now.tree.mods[owner.0 as int].children == start.tree.mods[owner.0 as int].children.push(
        link,
    )
    &&& now.tree.only_place(link, owner, start.tree.mods[owner.0 as int].children.len() as int)
    &&& now.tree.children_of(link, points_to)
}

/// States that `now` is a state in which the candidates `files` of the
/// declaration `link` are being followed, and that `files[..at]` have been:
/// `points_to` are the modules found for them, each for one of them, and
/// `revisited` is the first of them that was passed over, if any was.
pub open spec fn following<R: FileResolver>(
    env: BuildEnv<R>,
    start: BuildState,
    now: BuildState,
    open: Set<LinkId>,
    active: Set<ModuleId>,
    link: LinkId,
    owner: ModuleId,
    files: Seq<FileId>,
    at: int,
    points_to: Seq<ModuleId>,
    revisited: Option<ModuleSource>,
) -> bool {
    &&& linking(env, start, now, open, active, link, owner, points_to)
    &&& 0 <= at <= files.len()
    &&& points_to.len() <= at
    &&& revisited is None <==> points_to.len() == at
    &&& revisited matches Some(passed) ==> among(files.take(at), passed)
    &&& forall|p: int|
        0 <= p < points_to.len() ==> among(
            files.take(at),
            now.tree.mods[(#[trigger] points_to[p]).0 as int].source,
        )
}

/// A link that is being followed is still being followed after a root was
/// taken over as its child.
pub(crate) proof fn lemma_linking_adopted<R: FileResolver>(
    env: BuildEnv<R>,
    start: BuildState,
    before: BuildState,
    after: BuildState,
    open: Set<LinkId>,
    active: Set<ModuleId>,
    link: LinkId,
    owner: ModuleId,
    points_to: Seq<ModuleId>,
    file: FileId,
)
    requires
        linking(env, start, before, open, active, link, owner, points_to),
        before.roots.contains_key(file),
        after == before.adopt(file, link),
        after.sound(env, open.insert(link), active),
    ensures
        linking(env, start, after, open, active, link, owner, points_to.push(before.roots[file])),
{
    let root = before.roots[file];
    let more = points_to.push(root);
    lemma_grown_by_adopting(start, before, file, link);
    assert forall|m: int| 0 <= m < after.tree.mods.len() implies (
    #[trigger] after.tree.mods[m]).children == before.tree.mods[m].children by {}
    assert(before.tree.keeps_children(after.tree, None));
    lemma_keeps_children_twice(start.tree, before.tree, after.tree, Some(owner));
    assert forall|p: int| 0 <= p < more.len() implies (#[trigger] more[p]).0
        < after.tree.mods.len() && after.tree.mods[more[p].0 as int].parent == Some(link) by {
        if p < points_to.len() {
            assert(more[p] == points_to[p]);
            assert(before.tree.mods[points_to[p].0 as int].parent == Some(link));
            assert(points_to[p].0 != root.0);
        }
    }
    assert forall|m: int|
        0 <= m < after.tree.mods.len() && (#[trigger] after.tree.mods[m]).parent == Some(
            link,
        ) implies more.contains(ModuleId(m as usize)) by {
        if m == root.0 {
            assert(more[points_to.len() as int] == root);
        } else {
            assert(before.tree.mods[m].parent == Some(link));
            let p = choose|p: int| 0 <= p < points_to.len() && points_to[p] == ModuleId(m as usize);
            assert(more[p] == ModuleId(m as usize));
        }
    }
}

/// A link that is being followed is still being followed after a subtree
/// was built under it.
pub(crate) proof fn lemma_linking_built<R: FileResolver>(
    env: BuildEnv<R>,
    start: BuildState,
    before: BuildState,
    after: BuildState,
    open: Set<LinkId>,
    active: Set<ModuleId>,
    link: LinkId,
    owner: ModuleId,
    points_to: Seq<ModuleId>,
    module: ModuleId,
)
    requires
        linking(env, start, before, open, active, link, owner, points_to),
        after.sound(env, open.insert(link), active),
        before.grown_to(after, Some(module)),
        before.tree.keeps_children(after.tree, None),
        module.0 < after.tree.mods.len(),
        after.tree.mods[module.0 as int].parent == Some(link),
    ensures
        linking(env, start, after, open, active, link, owner, points_to.push(module)),
{
    let more = points_to.push(module);
    lemma_grown_under_new_link(start, before, after, module, link);
    lemma_keeps_children_twice(start.tree, before.tree, after.tree, Some(owner));
    assert(after.tree.links[link.0 as int].owner == before.tree.links[link.0 as int].owner);
    lemma_one_place(
        before.tree,
        after.tree,
        open.insert(link),
        link,
        owner,
        start.tree.mods[owner.0 as int].children.len() as int,
    );
    assert(after.tree.mods[owner.0 as int].children == before.tree.mods[owner.0 as int].children);
    assert forall|p: int| 0 <= p < more.len() implies (#[trigger] more[p]).0
        < after.tree.mods.len() && after.tree.mods[more[p].0 as int].parent == Some(link) by {
        if p < points_to.len() {
            assert(more[p] == points_to[p]);
            let it = points_to[p].0 as int;
            assert(before.tree.mods[it].parent == Some(link));
            assert(after.tree.mods[it].parent == before.tree.mods[it].parent);
        }
    }
    assert forall|m: int|
        0 <= m < after.tree.mods.len() && (#[trigger] after.tree.mods[m]).parent == Some(
            link,
        ) implies more.contains(ModuleId(m as usize)) by {
        if m == module.0 {
            assert(more[points_to.len() as int] == module);
        } else {
            assert(m < before.tree.mods.len() && before.tree.mods[m].parent == Some(link));
            let p = choose|p: int| 0 <= p < points_to.len() && points_to[p] == ModuleId(m as usize);
            assert(more[p] == ModuleId(m as usize));
        }
    }
}

/// The candidates of a declaration are still being followed, one further,
/// after the root for the next candidate was taken over.
pub(crate) proof fn lemma_following_adopted<R: FileResolver>(
    env: BuildEnv<R>,
    start: BuildState,
    before: BuildState,
    after: BuildState,
    open: Set<LinkId>,
    active: Set<ModuleId>,
    link: LinkId,
    owner: ModuleId,
    files: Seq<FileId>,
    at: int,
    points_to: Seq<ModuleId>,
    revisited: Option<ModuleSource>,
)
    requires
        following(env, start, before, open, active, link, owner, files, at, points_to, revisited),
        at < files.len(),
        before.roots.contains_key(files[at]),
        after == before.adopt(files[at], link),
        after.sound(env, open.insert(link), active),
    ensures
        following(
            env,
            start,
            after,
            open,
            active,
            link,
            owner,
            files,
            at + 1,
            points_to.push(before.roots[files[at]]),
            revisited,
        ),
{
    let root = before.roots[files[at]];
    let more = points_to.push(root);
    lemma_linking_adopted(env, start, before, after, open, active, link, owner, points_to, files[at]);
    lemma_among_last(files, at);
    if let Some(passed) = revisited {
        lemma_among_more(files, at, passed);
    }
    assert forall|p: int| 0 <= p < more.len() implies among(
        files.take(at + 1),
        after.tree.mods[(#[trigger] more[p]).0 as int].source,
    ) by {
        if p < points_to.len() {
            assert(more[p] == points_to[p]);
            let it = points_to[p].0 as int;
            assert(after.tree.mods[it].source == before.tree.mods[it].source);
            lemma_among_more(files, at, before.tree.mods[it].source);
        } else {
            assert(more[p] == root);
            assert(after.tree.mods[root.0 as int].source == before.tree.mods[root.0 as int].source);
        }
    }
}

/// The candidates of a declaration are still being followed, one further,
/// after the next candidate was passed over.
pub(crate) proof fn lemma_following_passed<R: FileResolver>(
    env: BuildEnv<R>,
    start: BuildState,
    now: BuildState,
    open: Set<LinkId>,
    active: Set<ModuleId>,
    link: LinkId,
    owner: ModuleId,
    files: Seq<FileId>,
    at: int,
    points_to: Seq<ModuleId>,
    revisited: Option<ModuleSource>,
)
    requires
        following(env, start, now, open, active, link, owner, files, at, points_to, revisited),
        at < files.len(),
    ensures
        following(
            env,
            start,
            now,
            open,
            active,
            link,
            owner,
            files,
            at + 1,
            points_to,
            if revisited is None {
                Some(ModuleSource::SourceFile(files[at]))
            } else {
                revisited
            },
        ),
{
    lemma_among_last(files, at);
    if let Some(passed) = revisited {
        lemma_among_more(files, at, passed);
    }
    assert forall|p: int| 0 <= p < points_to.len() implies among(
        files.take(at + 1),
        now.tree.mods[(#[trigger] points_to[p]).0 as int].source,
    ) by {
        lemma_among_more(files, at, now.tree.mods[points_to[p].0 as int].source);
    }
}

/// The candidates of a declaration are still being followed, one further,
/// after the next candidate was expanded.
pub(crate) proof fn lemma_following_built<R: FileResolver>(
    env: BuildEnv<R>,
    start: BuildState,
    before: BuildState,
    after: BuildState,
    open: Set<LinkId>,
    active: Set<ModuleId>,
    link: LinkId,
    owner: ModuleId,
    files: Seq<FileId>,
    at: int,
    points_to: Seq<ModuleId>,
    revisited: Option<ModuleSource>,
    module: ModuleId,
)
    requires
        following(env, start, before, open, active, link, owner, files, at, points_to, revisited),
        at < files.len(),
        after.sound(env, open.insert(link), active),
        before.grown_to(after, Some(module)),
        before.tree.keeps_children(after.tree, None),
        module.0 < after.tree.mods.len(),
        after.tree.mods[module.0 as int].parent == Some(link),
        after.tree.mods[module.0 as int].source == ModuleSource::SourceFile(files[at]),
    ensures
        following(
            env,
            start,
            after,
            open,
            active,
            link,
            owner,
            files,
            at + 1,
            points_to.push(module),
            revisited,
        ),
{
    let more = points_to.push(module);
    lemma_linking_built(env, start, before, after, open, active, link, owner, points_to, module);
    lemma_among_last(files, at);
    if let Some(passed) = revisited {
        lemma_among_more(files, at, passed);
    }
    assert forall|p: int| 0 <= p < more.len() implies among(
        files.take(at + 1),
        after.tree.mods[(#[trigger] more[p]).0 as int].source,
    ) by {
        if p < points_to.len() {
            assert(more[p] == points_to[p]);
            let it = points_to[p].0 as int;
            assert(after.tree.mods[it].source == before.tree.mods[it].source);
            lemma_among_more(files, at, before.tree.mods[it].source);
        } else {
            assert(more[p] == module);
        }
    }
}

/// Once all candidates of a declaration were followed, the modules found
/// and the problem met are what following the declaration leads to.
pub(crate) proof fn lemma_following_done<R: FileResolver>(
    env: BuildEnv<R>,
    start: BuildState,
    now: BuildState,
    open: Set<LinkId>,
    active: Set<ModuleId>,
    link: LinkId,
    owner: ModuleId,
    source: ModuleSource,
    name: Seq<char>,
    points_to: Seq<ModuleId>,
    revisited: Option<ModuleSource>,
)
    requires
        following(
            env,
            start,
            now,
            open,
            active,
            link,
            owner,
            resolution(env.resolver, source, name).points_to,
            resolution(env.resolver, source, name).points_to.len() as int,
            points_to,
            revisited,
        ),
    ensures
        link_follows(
            env,
            now.tree,
            source,
            SubmoduleView::Declaration(name),
            LinkDataView {
                points_to,
                problem: link_problem(resolution(env.resolver, source, name).problem, revisited),
                ..now.tree.links[link.0 as int]
            },
        ),
{
    let found = resolution(env.resolver, source, name);
    assert(found.points_to.take(found.points_to.len() as int) =~= found.points_to);
}

/// A link that was followed to its end may be concluded: afterwards the
/// state is sound without the link being open, and has grown from the
/// state in which the link was declared by one child of the owner.
pub(crate) proof fn lemma_linking_concluded<R: FileResolver>(
    env: BuildEnv<R>,
    start: BuildState,
    before: BuildState,
    after: BuildState,
    open: Set<LinkId>,
    active: Set<ModuleId>,
    link: LinkId,
    owner: ModuleId,
    points_to: Seq<ModuleId>,
    problem: Option<ProblemView>,
)
    requires
        linking(env, start, before, open, active, link, owner, points_to),
        after == before.conclude(link, points_to, problem),
        after.sound(env, open.insert(link).remove(link), active),
        before.grown_to(after, None),
    ensures
        after.sound(env, open, active),
        start.grown_to(after, None),
        start.tree.keeps_children(after.tree, Some(owner)),
        after.tree.mods[owner.0 as int].children.len() == start.tree.mods[owner.0 as int].children.len()
            + 1,
{
    assert(open.insert(link).remove(link) =~= open);
    lemma_grown_twice(start, before, after, None);
    assert(before.tree.keeps_children(after.tree, None));
    lemma_keeps_children_twice(start.tree, before.tree, after.tree, Some(owner));
}

} // verus!
