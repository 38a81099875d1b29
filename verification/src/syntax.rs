//! What the library reads of a file's syntax: the items that stand
//! directly in the file or in the body of an inline module, as plain
//! values. Parsing is the caller's part: the parser hands over one record
//! for each such item, in source order, and says for each in which body it
//! stands.

use vstd::prelude::*;

verus! {

/// A half-open range of byte offsets into a file's text.
#[derive(Clone, Copy, Debug, PartialEq, Eq, Structural, Hash)]
pub struct TextSpan {
    pub start: u32,
    pub end: u32,
}

/// What kind of item stands at some place: a module, declared with a
/// closing semicolon or not, or anything else.
#[derive(Clone, Copy, Debug, PartialEq, Eq, Structural, Hash)]
pub enum ItemKind {
    Module { has_semi: bool },
    Other,
}

/// One item of a file: its kind, the name it declares, if it declares one,
/// where it stands, and the module item in whose body it stands directly,
/// given by the range of that module item; `within` is `None` for an item
/// at the top of the file.
#[derive(Clone, Debug, PartialEq, Eq, Hash)]
pub struct SyntaxItem {
    pub kind: ItemKind,
    pub name: Option<String>,
    pub range: TextSpan,
    pub within: Option<TextSpan>,
}

/// The mathematical value of a `SyntaxItem`.
pub struct SyntaxItemView {
    pub kind: ItemKind,
    pub name: Option<Seq<char>>,
    pub range: TextSpan,
    pub within: Option<TextSpan>,
}

impl DeepView for SyntaxItem {
    type V = SyntaxItemView;

    open spec fn deep_view(&self) -> SyntaxItemView {
        SyntaxItemView {
            kind: self.kind,
            name: match self.name {
                Some(name) => Some(name@),
                None => None,
            },
            range: self.range,
            within: self.within,
        }
    }
}

impl SyntaxItem {
    /// An item with the same kind, name and place.
    pub fn duplicate(&self) -> (item: Self)
        ensures
            item.deep_view() == self.deep_view(),
    {
        SyntaxItem {
            kind: self.kind,
            name: match &self.name {
                Some(name) => Some(name.clone()),
                None => None,
            },
            range: self.range,
            within: self.within,
        }
    }
}

} // verus!
