//! The inputs of the analysis: files, source roots, and the capability
//! that maps a module declaration to the files that may hold the module.

use vstd::prelude::*;

verus! {

/// A stable identifier of a source file, handed in from outside.
#[derive(Clone, Copy, Debug, PartialEq, Eq, Structural, Hash, PartialOrd, Ord)]
pub struct FileId(pub u32);

/// The identifier of a source root.
#[derive(Clone, Copy, Debug, PartialEq, Eq, Structural, Hash, PartialOrd, Ord)]
pub struct SourceRootId(pub u32);

/// Finds files by their place relative to another file. Both answers are
/// functions of the file set alone: asking twice gives the same answer, and
/// a path that leads nowhere is answered with `None`, never with a failure.
/// An implementation says what its answers are, in `stem_of` and
/// `target_of`, and proves that it gives them; `FileMap` is one.
pub trait FileResolver {
    /// The stem of the file's name, as `file_stem` reports it.
    spec fn stem_of(&self, file_id: FileId) -> Seq<char>;

    /// The file that `path` leads to from `file_id`, as `resolve` reports it.
    spec fn target_of(&self, file_id: FileId, path: Seq<char>) -> Option<FileId>;

    /// The name of the file without its extension.
    fn file_stem(&self, file_id: FileId) -> (stem: String)
        ensures
            stem@ == self.stem_of(file_id),
    ;

    /// The file found at `path`, taken relative to `file_id`.
    fn resolve(&self, file_id: FileId, path: &str) -> (target: Option<FileId>)
        ensures
            target == self.target_of(file_id, path@),
    ;
}

/// States that the identifiers in `files` grow strictly from each element
/// to the next.
pub open spec fn strictly_increasing(files: Seq<FileId>) -> bool {
    forall|i: int, j: int| 0 <= i < j < files.len() ==> files[i].0 < files[j].0
}

/// The order of the identifiers leaves one way to list a set of files: two
/// strictly increasing lists with the same elements are the same list.
pub proof fn lemma_one_order(a: Seq<FileId>, b: Seq<FileId>)
    requires
        strictly_increasing(a),
        strictly_increasing(b),
        a.to_set() == b.to_set(),
    ensures
        a == b,
    decreases a.len(),
{
    if a.len() == 0 {
        if b.len() > 0 {
            assert(b.to_set().contains(b[0]));
            assert(a.contains(b[0]));
        }
        assert(a =~= b);
    } else {
        let top = a.last();
        assert(a.to_set().contains(top));
        assert(b.contains(top));
        let at = choose|at: int| 0 <= at < b.len() && b[at] == top;
        if at < b.len() - 1 {
            assert(b.to_set().contains(b.last()));
            assert(a.contains(b.last()));
            let back = choose|back: int| 0 <= back < a.len() && a[back] == b.last();
            assert(b[at].0 < b.last().0);
            if back < a.len() - 1 {
                assert(a[back].0 < a.last().0);
            }
        }
        assert(b.last() == top);
        let a0 = a.drop_last();
        let b0 = b.drop_last();
        assert forall|f: FileId| a0.to_set().contains(f) <==> b0.to_set().contains(f) by {
            if a0.contains(f) {
                let k = choose|k: int| 0 <= k < a0.len() && a0[k] == f;
                assert(a[k] == f);
                assert(a[k].0 < top.0);
                assert(a.to_set().contains(f));
                assert(b.contains(f));
                let j = choose|j: int| 0 <= j < b.len() && b[j] == f;
                assert(b0[j] == f);
            }
            if b0.contains(f) {
                let k = choose|k: int| 0 <= k < b0.len() && b0[k] == f;
                assert(b[k] == f);
                assert(b[k].0 < top.0);
                assert(b.to_set().contains(f));
                assert(a.contains(f));
                let j = choose|j: int| 0 <= j < a.len() && a[j] == f;
                assert(a0[j] == f);
            }
        }
        assert(a0.to_set() =~= b0.to_set());
        lemma_one_order(a0, b0);
        assert(a =~= a0.push(top));
        assert(b =~= b0.push(top));
    }
}

/// A set of files that share one resolution namespace, together with the
/// capability that resolves paths among them. The member files are kept in
/// the order of their identifiers, so that walking them is reproducible.
#[derive(Debug, PartialEq, Eq, Hash)]
pub struct SourceRoot<R> {
    files: Vec<FileId>,
    file_resolver: R,
}

impl<R> SourceRoot<R> {
    #[verifier::type_invariant]
    spec fn ordered(&self) -> bool {
        strictly_increasing(self.files@)
    }

    /// The member files, in the order in which they are walked.
    pub closed spec fn members(&self) -> Seq<FileId> {
        self.files@
    }

    /// The resolver of this source root.
    pub closed spec fn resolver(&self) -> R {
        self.file_resolver
    }

    /// A source root without files.
    pub fn new(file_resolver: R) -> (root: Self)
        ensures
            root.members() == Seq::<FileId>::empty(),
            root.resolver() == file_resolver,
            strictly_increasing(root.members()),
    {
        SourceRoot { files: Vec::new(), file_resolver }
    }

    /// Makes `file_id` a member. Nothing changes if it is one already.
    pub fn insert_file(&mut self, file_id: FileId)
        ensures
            final(self).resolver() == old(self).resolver(),
            final(self).members().to_set() == old(self).members().to_set().insert(file_id),
            strictly_increasing(final(self).members()),
    {
        proof {
            use_type_invariant(&*self);
        }
        let ghost before = self.files@;
        let mut at: usize = 0;
        while at < self.files.len() && self.files[at].0 < file_id.0
            invariant
                at <= self.files.len(),
                self.files@ == before,
                forall|k: int| 0 <= k < at ==> before[k].0 < file_id.0,
            decreases self.files.len() - at,
        {
            at = at + 1;
        }
        if at < self.files.len() && self.files[at].0 == file_id.0 {
            assert(before[at as int] == file_id);
            assert(before.to_set().insert(file_id) =~= before.to_set());
            return ;
        }
        assert(!before.contains(file_id)) by {
            if before.contains(file_id) {
                let k = choose|k: int| 0 <= k < before.len() && before[k] == file_id;
                if k < at {
                    assert(before[k].0 < file_id.0);
                } else if k > at {
                    assert(before[at as int].0 < before[k].0);
                }
            }
        }
        let mut moved: Vec<FileId> = Vec::new();
        let mut k: usize = 0;
        while k < at
            invariant
                k <= at <= self.files.len(),
                self.files@ == before,
                moved@ == before.take(k as int),
            decreases at - k,
        {
            moved.push(self.files[k]);
            assert(moved@ =~= before.take(k + 1));
            k = k + 1;
        }
        moved.push(file_id);
        while k < self.files.len()
            invariant
                at <= k <= self.files.len(),
                self.files@ == before,
                moved@ == before.take(at as int).push(file_id) + before.subrange(at as int, k as int),
            decreases self.files.len() - k,
        {
            moved.push(self.files[k]);
            assert(moved@ =~= before.take(at as int).push(file_id) + before.subrange(
                at as int,
                k + 1,
            ));
            k = k + 1;
        }
        proof {
            let after = moved@;
            assert(after.len() == before.len() + 1);
            assert(forall|i: int| 0 <= i < at ==> after[i] == before[i]);
            assert(after[at as int] == file_id);
            assert(forall|i: int| at < i < after.len() ==> after[i] == before[i - 1]);
            assert forall|i: int, j: int| 0 <= i < j < after.len() implies after[i].0 < after[j].0 by {
                if j < at {
                    assert(after[i] == before[i] && after[j] == before[j]);
                } else if j == at {
                    assert(after[i] == before[i]);
                } else if i < at {
                    assert(after[i] == before[i] && after[j] == before[j - 1]);
                    if j - 1 > at {
                        assert(before[at as int].0 < before[j - 1].0);
                    }
                } else if i == at {
                    assert(after[j] == before[j - 1]);
                    if j - 1 > at {
                        assert(before[at as int].0 < before[j - 1].0);
                    }
                } else {
                    assert(after[i] == before[i - 1] && after[j] == before[j - 1]);
                }
            }
            assert(after.to_set() =~= before.to_set().insert(file_id)) by {
                assert forall|f: FileId| after.to_set().contains(f) <==> before.to_set().insert(
                    file_id,
                ).contains(f) by {
                    if after.contains(f) {
                        let k = choose|k: int| 0 <= k < after.len() && after[k] == f;
                        if k < at {
                            assert(before[k] == f);
                        } else if k > at {
                            assert(before[k - 1] == f);
                        }
                    }
                    if before.contains(f) {
                        let k = choose|k: int| 0 <= k < before.len() && before[k] == f;
                        if k < at {
                            assert(after[k] == f);
                        } else {
                            assert(after[k + 1] == f);
                        }
                    }
                    if f == file_id {
                        assert(after[at as int] == f);
                    }
                }
            }
        }
        self.files = moved;
    }

    /// The member files, in the order of their identifiers.
    pub fn files(&self) -> (files: &Vec<FileId>)
        ensures
            files@ == self.members(),
            strictly_increasing(files@),
    {
        proof {
            use_type_invariant(self);
        }
        &self.files
    }

    /// The capability that resolves paths among the member files.
    pub fn file_resolver(&self) -> (resolver: &R)
        ensures
            *resolver == self.resolver(),
    {
        &self.file_resolver
    }
}

} // verus!
