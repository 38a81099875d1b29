//! From a declared module name to the files that may hold the module.

use crate::input::{FileId, FileResolver};
use crate::source::ModuleSource;
use vstd::prelude::*;
use vstd::string::*;

verus! {

/// What is wrong with a module declaration. A link that carries a problem
/// stays in the tree, so the rest of the tree can still be walked.
#[derive(Clone, Debug, PartialEq, Eq, Hash)]
pub enum Problem {
    /// No file was found for the declaration; `candidate` is the sibling
    /// file that would have held the module.
    UnresolvedModule { candidate: String },
    /// The declaring file may not own a directory; `candidate` is the
    /// sibling file that the declaration asks for, and `move_to` is where
    /// the declaring file would have to go to own it.
    NotDirOwner { move_to: String, candidate: String },
    /// The declaration leads to `source`, which already has its module in
    /// the tree under another parent or is an ancestor of the declaration.
    /// No second module is made for it.
    AlreadyVisited { source: ModuleSource },
}

/// The mathematical value of a `Problem`.
pub enum ProblemView {
    UnresolvedModule { candidate: Seq<char> },
    NotDirOwner { move_to: Seq<char>, candidate: Seq<char> },
    AlreadyVisited { source: ModuleSource },
}

impl DeepView for Problem {
    type V = ProblemView;

    open spec fn deep_view(&self) -> ProblemView {
        match self {
            Problem::UnresolvedModule { candidate } => ProblemView::UnresolvedModule {
                candidate: candidate@,
            },
            Problem::NotDirOwner { move_to, candidate } => ProblemView::NotDirOwner {
                move_to: move_to@,
                candidate: candidate@,
            },
            Problem::AlreadyVisited { source } => ProblemView::AlreadyVisited { source: *source },
        }
    }
}

/// What resolving one declaration gives: the files found, in the order in
/// which they were looked for, and the problem met, if any.
pub struct Resolution {
    pub points_to: Seq<FileId>,
    pub problem: Option<ProblemView>,
}

/// A file may have submodules in a directory beside it only if it is named
/// as the root of a crate or of a directory.
pub open spec fn is_dir_owner(stem: Seq<char>) -> bool {
    stem == "mod"@ || stem == "lib"@ || stem == "main"@
}

/// The path, from the declaring file, of the sibling file for `name`.
pub open spec fn file_candidate(name: Seq<char>) -> Seq<char> {
    "../"@ + name + ".rs"@
}

/// The path, from the declaring file, of the root of the sibling directory
/// for `name`.
pub open spec fn dir_candidate(name: Seq<char>) -> Seq<char> {
    "../"@ + name + "/mod.rs"@
}

/// The one file that `path` leads to from `file_id`, or none.
pub open spec fn found_at<R: FileResolver>(resolver: R, file_id: FileId, path: Seq<char>) -> Seq<
    FileId,
> {
    match resolver.target_of(file_id, path) {
        Some(target) => seq![target],
        None => Seq::empty(),
    }
}

/// What the declaration of `name` in `source` resolves to.
///
/// The declaration is resolved from the file that holds it, whether it
/// stands at the top of the file or in an inline module. A file that does
/// not own a directory never has its declarations looked up. Otherwise the
/// sibling file is looked for first, then the sibling directory; both may
/// be found.
pub open spec fn resolution<R: FileResolver>(
    resolver: R,
    source: ModuleSource,
    name: Seq<char>,
) -> Resolution {
    let file_id = source.file();
    let stem = resolver.stem_of(file_id);
    if is_dir_owner(stem) {
        let points_to = found_at(resolver, file_id, file_candidate(name)) + found_at(
            resolver,
            file_id,
            dir_candidate(name),
        );
        Resolution {
            points_to,
            problem: if points_to.len() == 0 {
                Some(ProblemView::UnresolvedModule { candidate: file_candidate(name) })
            } else {
                None
            },
        }
    } else {
        Resolution {
            points_to: Seq::empty(),
            problem: Some(
                ProblemView::NotDirOwner {
                    move_to: dir_candidate(stem),
                    candidate: file_candidate(name),
                },
            ),
        }
    }
}

/// Builds the path `../<name><tail>`.
fn sibling_path(name: &str, tail: &str) -> (path: String)
    ensures
        path@ == "../"@ + name@ + tail@,
{
    String::from_str("../").concat(name).concat(tail)
}

/// Tells whether a file with this stem may own a directory.
fn stem_owns_dir(stem: &String) -> (owner: bool)
    ensures
        owner == is_dir_owner(stem@),
{
    *stem == String::from_str("mod") || *stem == String::from_str("lib") || *stem
        == String::from_str("main")
}

/// Resolves the declaration of `name` in `source` to the files that may hold
/// the module, and says what is wrong with the declaration, if anything.
/// There is a problem exactly if no file is found.
pub fn resolve_submodule<R: FileResolver>(
    source: ModuleSource,
    name: &String,
    file_resolver: &R,
) -> (res: (Vec<FileId>, Option<Problem>))
    ensures
        res.0@ == resolution(*file_resolver, source, name@).points_to,
        res.1.deep_view() == resolution(*file_resolver, source, name@).problem,
        res.0@.len() == 0 <==> res.1 is Some,
{
    let file_id = source.file_id();
    let mod_name = file_resolver.file_stem(file_id);
    let file_mod = sibling_path(name.as_str(), ".rs");
    let mut points_to: Vec<FileId> = Vec::new();
    if stem_owns_dir(&mod_name) {
        let dir_mod = sibling_path(name.as_str(), "/mod.rs");
        if let Some(target) = file_resolver.resolve(file_id, file_mod.as_str()) {
            points_to.push(target);
        }
        if let Some(target) = file_resolver.resolve(file_id, dir_mod.as_str()) {
            points_to.push(target);
        }
        let problem = if points_to.len() == 0 {
            Some(Problem::UnresolvedModule { candidate: file_mod })
        } else {
            None
        };
        assert(points_to@ =~= resolution(*file_resolver, source, name@).points_to);
        (points_to, problem)
    } else {
        let move_to = sibling_path(mod_name.as_str(), "/mod.rs");
        (points_to, Some(Problem::NotDirOwner { move_to, candidate: file_mod }))
    }
}

/// A declaration in a file that does not own a directory is never looked
/// up: whatever files exist, it leads nowhere and carries the problem that
/// names the sibling file asked for and the place to move the declaring
/// file to.
pub proof fn lemma_non_owner_never_resolves<R: FileResolver>(
    resolver: R,
    source: ModuleSource,
    name: Seq<char>,
)
    requires
        !is_dir_owner(resolver.stem_of(source.file())),
    ensures
        resolution(resolver, source, name) == (Resolution {
            points_to: Seq::empty(),
            problem: Some(
                ProblemView::NotDirOwner {
                    move_to: dir_candidate(resolver.stem_of(source.file())),
                    candidate: file_candidate(name),
                },
            ),
        }),
{
}

/// A declaration in a file that owns a directory is unresolved exactly if
/// neither the sibling file nor the sibling directory exists; it then
/// leads nowhere and names the sibling file. Otherwise it has no problem
/// and leads to what was found, one file or two.
pub proof fn lemma_owner_resolution<R: FileResolver>(
    resolver: R,
    source: ModuleSource,
    name: Seq<char>,
)
    requires
        is_dir_owner(resolver.stem_of(source.file())),
    ensures
        ({
            let found = resolution(resolver, source, name);
            let file = resolver.target_of(source.file(), file_candidate(name));
            let dir = resolver.target_of(source.file(), dir_candidate(name));
            &&& found.points_to.len() == (if file is Some {
                1int
            } else {
                0int
            }) + (if dir is Some {
                1int
            } else {
                0int
            })
            &&& file is None && dir is None ==> found.problem == Some(
                ProblemView::UnresolvedModule { candidate: file_candidate(name) },
            )
            &&& file is Some || dir is Some ==> found.problem is None
            &&& file matches Some(target) ==> found.points_to[0] == target
            &&& dir matches Some(target) ==> found.points_to.last() == target
        }),
{
}

/// A declaration leads nowhere exactly if it has a problem: wherever it
/// stands, it either resolves to one file or two, or it says why not.
pub proof fn lemma_targets_or_problem<R: FileResolver>(
    resolver: R,
    source: ModuleSource,
    name: Seq<char>,
)
    ensures
        resolution(resolver, source, name).points_to.len() == 0 <==> resolution(
            resolver,
            source,
            name,
        ).problem is Some,
{
}

} // verus!
