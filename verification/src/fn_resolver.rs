//! A resolver made of two functions, for file sets that are known to
//! something else than a table of paths.

use crate::input::{FileId, FileResolver};
use vstd::prelude::*;

verus! {

/// States that `stem` may be asked about every file and gives one answer
/// for each.
pub open spec fn stem_is_settled<S: Fn(FileId) -> String>(stem: S) -> bool {
    &&& forall|file_id: FileId| call_requires(stem, (file_id,))
    &&& forall|file_id: FileId, a: String, b: String|
        call_ensures(stem, (file_id,), a) && call_ensures(stem, (file_id,), b) ==> a@ == b@
}

/// States that `target` may be asked about every file and path and gives
/// one answer for each.
pub open spec fn target_is_settled<T: Fn(FileId, String) -> Option<FileId>>(target: T) -> bool {
    &&& forall|file_id: FileId, path: String| call_requires(target, (file_id, path))
    &&& forall|file_id: FileId, p: String, q: String, a: Option<FileId>, b: Option<FileId>|
        p@ == q@ && call_ensures(target, (file_id, p), a) && call_ensures(target, (file_id, q), b)
            ==> a == b
}

/// A resolver that asks two functions for its answers: `stem` for the stem
/// of a file's name, and `target` for the file at a path. The functions
/// have to give one answer to one question, whenever they are asked: the
/// answers are taken to be a function of the file set.
pub struct FnResolver<S: Fn(FileId) -> String, T: Fn(FileId, String) -> Option<FileId>> {
    stem: S,
    target: T,
}

impl<S: Fn(FileId) -> String, T: Fn(FileId, String) -> Option<FileId>> FnResolver<S, T> {
    #[verifier::type_invariant]
    spec fn settled(&self) -> bool {
        stem_is_settled(self.stem) && target_is_settled(self.target)
    }

    /// The function that is asked for stems.
    pub closed spec fn stem_fn(&self) -> S {
        self.stem
    }

    /// The function that is asked for targets.
    pub closed spec fn target_fn(&self) -> T {
        self.target
    }

    /// The resolver that asks `stem` and `target`.
    pub fn new(stem: S, target: T) -> (resolver: Self)
        requires
            stem_is_settled(stem),
            target_is_settled(target),
        ensures
            resolver.stem_fn() == stem,
            resolver.target_fn() == target,
    {
        FnResolver { stem, target }
    }

    /// An answer that the stem function can give is the stem that the
    /// resolver reports.
    pub proof fn lemma_stem(&self, file_id: FileId, out: String)
        requires
            stem_is_settled(self.stem_fn()),
            call_ensures(self.stem_fn(), (file_id,), out),
        ensures
            self.stem_of(file_id) == out@,
    {
    }

    /// An answer that the target function can give is the target that the
    /// resolver reports.
    pub proof fn lemma_target(&self, file_id: FileId, path: String, out: Option<FileId>)
        requires
            target_is_settled(self.target_fn()),
            call_ensures(self.target_fn(), (file_id, path), out),
        ensures
            self.target_of(file_id, path@) == out,
    {
        let answer = (path, out);
        assert(answer.0@ == path@ && call_ensures(self.target, (file_id, answer.0), answer.1));
    }
}

impl<S: Fn(FileId) -> String, T: Fn(FileId, String) -> Option<FileId>> FileResolver for FnResolver<
    S,
    T,
> {
    /// The view of what the stem function answers.
    closed spec fn stem_of(&self, file_id: FileId) -> Seq<char> {
        let out = choose|out: String| call_ensures(self.stem, (file_id,), out);
        out@
    }

    /// What the target function answers when asked with `path`.
    closed spec fn target_of(&self, file_id: FileId, path: Seq<char>) -> Option<FileId> {
        let answer = choose|answer: (String, Option<FileId>)|
            answer.0@ == path && #[trigger] call_ensures(self.target, (file_id, answer.0), answer.1);
        answer.1
    }

    fn file_stem(&self, file_id: FileId) -> (stem: String) {
        proof {
            use_type_invariant(self);
        }
        (self.stem)(file_id)
    }

    fn resolve(&self, file_id: FileId, path: &str) -> (target: Option<FileId>) {
        proof {
            use_type_invariant(self);
        }
        let asked = path.to_owned();
        let target = (self.target)(file_id, asked);
        proof {
            let answer = (asked, target);
            assert(answer.0@ == path@ && call_ensures(self.target, (file_id, answer.0), answer.1));
        }
        target
    }
}

} // verus!
