//! A resolver that knows each file by its path and finds a file by walking
//! from one path to another. The paths are those of `relative_path`.

use crate::input::{FileId, FileResolver};
use relative_path::RelativePath;
use vstd::prelude::*;

verus! {

/// The stem of the file name that the path `path` ends in, as
/// `relative_path` tells it; `None` if the path has no file name.
pub uninterp spec fn path_stem(path: Seq<char>) -> Option<Seq<char>>;

/// The path that `relative_path` gives for `path` taken relative to `base`,
/// with the steps `.` and `..` worked in.
pub uninterp spec fn path_joined(base: Seq<char>, path: Seq<char>) -> Seq<char>;

/// Asks `RelativePath::file_stem` for the stem of the file name of `path`.
/// The contract gives the answer the name `path_stem`.
#[verifier::external_body]
fn file_stem_of(path: &str) -> (stem: Option<String>)
    ensures
        stem.deep_view() == path_stem(path@),
{
    RelativePath::new(path).file_stem().map(|stem| stem.to_string())
}

/// Asks `RelativePath::join_normalized` for `path` taken relative to
/// `base`. The contract gives the answer the name `path_joined`.
#[verifier::external_body]
fn join_normalized(base: &str, path: &str) -> (joined: String)
    ensures
        joined@ == path_joined(base@, path@),
{
    RelativePath::new(base).join_normalized(path).as_str().to_string()
}

/// A file and the path it is known by.
#[derive(Clone, Debug, PartialEq, Eq, Hash)]
pub struct FilePlace {
    pub file_id: FileId,
    pub path: String,
}

/// The mathematical value of a `FilePlace`.
pub struct FilePlaceView {
    pub file_id: FileId,
    pub path: Seq<char>,
}

impl DeepView for FilePlace {
    type V = FilePlaceView;

    open spec fn deep_view(&self) -> FilePlaceView {
        FilePlaceView { file_id: self.file_id, path: self.path@ }
    }
}

/// The path of the first place in `places` that is the place of `file_id`.
pub open spec fn path_of(places: Seq<FilePlaceView>, file_id: FileId) -> Option<Seq<char>>
    decreases places.len(),
{
    if places.len() == 0 {
        None
    } else if places.first().file_id == file_id {
        Some(places.first().path)
    } else {
        path_of(places.drop_first(), file_id)
    }
}

/// The file of the first place in `places` that has the path `path`.
pub open spec fn file_at(places: Seq<FilePlaceView>, path: Seq<char>) -> Option<FileId>
    decreases places.len(),
{
    if places.len() == 0 {
        None
    } else if places.first().path == path {
        Some(places.first().file_id)
    } else {
        file_at(places.drop_first(), path)
    }
}

/// Files with their paths, in the order in which they were added. A path
/// is kept as `relative_path` writes it once the steps `.` and `..` are
/// worked in, so that two ways to write one path find the same file.
#[derive(Debug, PartialEq, Eq, Hash)]
pub struct FileMap {
    places: Vec<FilePlace>,
}

impl View for FileMap {
    type V = Seq<FilePlaceView>;

    closed spec fn view(&self) -> Seq<FilePlaceView> {
        self.places.deep_view()
    }
}

impl FileMap {
    /// A map without files.
    pub fn new() -> (map: Self)
        ensures
            map@ == Seq::<FilePlaceView>::empty(),
    {
        let map = FileMap { places: Vec::new() };
        assert(map@ =~= Seq::empty());
        map
    }

    /// Adds `file_id` at `path`. Where a file or a path is added twice,
    /// the first entry is the one that is found.
    pub fn insert(&mut self, file_id: FileId, path: &str)
        ensures
            final(self)@ == old(self)@.push(
                FilePlaceView { file_id, path: path_joined(Seq::empty(), path@) },
            ),
    {
        proof {
            reveal_strlit("");
        }
        assert(""@ =~= Seq::<char>::empty());
        let place = FilePlace { file_id, path: join_normalized("", path) };
        self.places.push(place);
        assert(self@ =~= old(self)@.push(place.deep_view()));
    }

    /// The path that `file_id` is known by.
    pub fn path(&self, file_id: FileId) -> (path: Option<&String>)
        ensures
            path.deep_view() == path_of(self@, file_id),
    {
        let mut at: usize = 0;
        assert(self@.skip(0) =~= self@);
        while at < self.places.len()
            invariant
                at <= self.places.len(),
                path_of(self@, file_id) == path_of(self@.skip(at as int), file_id),
            decreases self.places.len() - at,
        {
            if self.places[at].file_id.0 == file_id.0 {
                assert(self@.skip(at as int).first() == self.places[at as int].deep_view());
                return Some(&self.places[at].path);
            }
            assert(self@.skip(at as int).drop_first() =~= self@.skip(at + 1));
            at = at + 1;
        }
        assert(self@.skip(at as int) =~= Seq::empty());
        None
    }

    /// The file that is known by `path`, which is compared as it stands.
    pub fn file(&self, path: &String) -> (file: Option<FileId>)
        ensures
            file == file_at(self@, path@),
    {
        let mut at: usize = 0;
        assert(self@.skip(0) =~= self@);
        while at < self.places.len()
            invariant
                at <= self.places.len(),
                file_at(self@, path@) == file_at(self@.skip(at as int), path@),
            decreases self.places.len() - at,
        {
            if self.places[at].path == *path {
                assert(self@.skip(at as int).first() == self.places[at as int].deep_view());
                return Some(self.places[at].file_id);
            }
            assert(self@.skip(at as int).first() == self.places[at as int].deep_view());
            assert(self@.skip(at as int).drop_first() =~= self@.skip(at + 1));
            at = at + 1;
        }
        assert(self@.skip(at as int) =~= Seq::empty());
        None
    }
}

impl FileResolver for FileMap {
    /// The stem of the file name in the path of `file_id`; empty if the
    /// file is unknown or its path has no file name.
    open spec fn stem_of(&self, file_id: FileId) -> Seq<char> {
        match path_of(self@, file_id) {
            Some(path) => match path_stem(path) {
                Some(stem) => stem,
                None => Seq::empty(),
            },
            None => Seq::empty(),
        }
    }

    /// The file known by the path that `path` leads to from the path of
    /// `file_id`; none if `file_id` is unknown.
    open spec fn target_of(&self, file_id: FileId, path: Seq<char>) -> Option<FileId> {
        match path_of(self@, file_id) {
            Some(base) => file_at(self@, path_joined(base, path)),
            None => None,
        }
    }

    fn file_stem(&self, file_id: FileId) -> (stem: String) {
        let found = match self.path(file_id) {
            Some(path) => file_stem_of(path.as_str()),
            None => None,
        };
        match found {
            Some(stem) => stem,
            None => String::new(),
        }
    }

    fn resolve(&self, file_id: FileId, path: &str) -> (target: Option<FileId>) {
        match self.path(file_id) {
            Some(base) => {
                let joined = join_normalized(base.as_str(), path);
                self.file(&joined)
            },
            None => None,
        }
    }
}

} // verus!
