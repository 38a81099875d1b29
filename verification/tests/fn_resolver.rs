use std::sync::Arc;

use ra_analysis::db::RootDatabase;
use ra_analysis::fn_resolver::FnResolver;
use ra_analysis::input::{FileId, FileResolver, SourceRoot, SourceRootId};
use ra_analysis::resolve::{resolve_submodule, Problem};
use ra_analysis::source::ModuleSource;
use ra_analysis::tree::{LinkId, ModuleId};
use ra_analysis::syntax::{ItemKind, SyntaxItem, TextSpan};
use ra_syntax::ast::{AstNode, ModuleItem, ModuleItemOwner, Name};
use ra_syntax::File;

/// What the parser finds in `text`: the items at the top of the file and
/// in the bodies of its inline modules, in source order.
fn parse(text: &str) -> Vec<SyntaxItem> {
    let file = File::parse(text);
    let mut items = Vec::new();
    list(file.ast().items(), None, &mut items);
    items
}

fn list<'a>(
    found: impl Iterator<Item = ModuleItem<'a>>,
    within: Option<TextSpan>,
    items: &mut Vec<SyntaxItem>,
) {
    for item in found {
        let at = item.syntax().range();
        let range = TextSpan { start: at.start().into(), end: at.end().into() };
        let (kind, body) = match item {
            ModuleItem::Module(module) => {
                (ItemKind::Module { has_semi: module.has_semi() }, module.item_list())
            }
            _ => (ItemKind::Other, None),
        };
        let name = item.syntax().children().find_map(Name::cast).map(|name| name.text().to_string());
        items.push(SyntaxItem { kind, name, range, within });
        if let Some(body) = body {
            list(body.items(), Some(range), items);
        }
    }
}

const ROOT: SourceRootId = SourceRootId(0);

fn file(id: u32) -> ModuleSource {
    ModuleSource::SourceFile(FileId(id))
}

#[test]
fn the_functions_give_the_answers() {
    let resolver = FnResolver::new(
        |file: FileId| format!("stem{}", file.0),
        |file: FileId, path: String| {
            if path == "../x.rs" {
                Some(FileId(file.0 + 1))
            } else {
                None
            }
        },
    );
    assert_eq!(resolver.file_stem(FileId(4)), "stem4");
    assert_eq!(resolver.resolve(FileId(4), "../x.rs"), Some(FileId(5)));
    assert_eq!(resolver.resolve(FileId(4), "../y.rs"), None);
}

#[test]
fn declarations_are_resolved_through_the_functions() {
    let resolver = FnResolver::new(
        |file: FileId| if file.0 == 1 { "main".to_string() } else { "other".to_string() },
        |_file: FileId, path: String| {
            if path == "../a/mod.rs" {
                Some(FileId(9))
            } else {
                None
            }
        },
    );
    let from_owner = resolve_submodule(file(1), &"a".to_string(), &resolver);
    assert_eq!(from_owner, (vec![FileId(9)], None));
    let from_other = resolve_submodule(file(2), &"a".to_string(), &resolver);
    assert_eq!(
        from_other,
        (
            vec![],
            Some(Problem::NotDirOwner {
                move_to: "../other/mod.rs".to_string(),
                candidate: "../a.rs".to_string(),
            })
        )
    );
}

#[test]
fn a_ring_of_declarations_is_followed_once() {
    // Every file owns a directory, and `mod next;` leads from each file to
    // the next one, from the last back to the first.
    let resolver = FnResolver::new(
        |_file: FileId| "mod".to_string(),
        |file: FileId, path: String| {
            if path == "../next.rs" {
                Some(FileId(file.0 % 3 + 1))
            } else {
                None
            }
        },
    );
    let mut root = SourceRoot::new(resolver);
    let mut db = RootDatabase::new();
    for id in 1..=3 {
        root.insert_file(FileId(id));
        db.set_file_syntax(FileId(id), Arc::new(parse("mod next;")));
    }
    db.set_source_root(ROOT, Arc::new(root));
    let tree = db.module_tree(ROOT);

    assert_eq!(tree.mods().len(), 3);
    assert_eq!(tree.links().len(), 3);
    for index in 0..3 {
        assert_eq!(tree.mods()[index].source, file(index as u32 + 1));
        assert_eq!(tree.mods()[index].children, vec![LinkId(index)]);
        assert_eq!(tree.links()[index].owner, ModuleId(index));
    }
    assert_eq!(tree.mods()[0].parent, None);
    assert_eq!(tree.mods()[1].parent, Some(LinkId(0)));
    assert_eq!(tree.mods()[2].parent, Some(LinkId(1)));
    assert_eq!(tree.links()[0].points_to, vec![ModuleId(1)]);
    assert_eq!(tree.links()[1].points_to, vec![ModuleId(2)]);
    // The link that closes the ring leads nowhere and says why.
    assert!(tree.links()[2].points_to.is_empty());
    assert_eq!(tree.links()[2].problem, Some(Problem::AlreadyVisited { source: file(1) }));
}

#[test]
fn a_file_found_twice_for_one_declaration_is_taken_once() {
    // The sibling file and the sibling directory are one and the same file.
    let resolver = FnResolver::new(
        |file: FileId| if file.0 == 1 { "lib".to_string() } else { "a".to_string() },
        |file: FileId, _path: String| if file.0 == 1 { Some(FileId(2)) } else { None },
    );
    let mut root = SourceRoot::new(resolver);
    root.insert_file(FileId(1));
    root.insert_file(FileId(2));
    let mut db = RootDatabase::new();
    db.set_file_syntax(FileId(1), Arc::new(parse("mod a;")));
    db.set_source_root(ROOT, Arc::new(root));
    let tree = db.module_tree(ROOT);

    assert_eq!(tree.mods().len(), 2);
    assert_eq!(tree.links().len(), 1);
    assert_eq!(tree.links()[0].points_to, vec![ModuleId(1)]);
    assert_eq!(tree.links()[0].problem, Some(Problem::AlreadyVisited { source: file(2) }));
    assert_eq!(tree.mods()[1].parent, Some(LinkId(0)));
}

#[test]
fn a_declaration_that_leads_to_its_own_file_makes_no_module() {
    let resolver = FnResolver::new(
        |_file: FileId| "lib".to_string(),
        |file: FileId, path: String| if path == "../me.rs" { Some(file) } else { None },
    );
    let mut root = SourceRoot::new(resolver);
    root.insert_file(FileId(1));
    let mut db = RootDatabase::new();
    db.set_file_syntax(FileId(1), Arc::new(parse("mod me;")));
    db.set_source_root(ROOT, Arc::new(root));
    let tree = db.module_tree(ROOT);

    assert_eq!(tree.mods().len(), 1);
    assert!(tree.links()[0].points_to.is_empty());
    assert_eq!(tree.links()[0].problem, Some(Problem::AlreadyVisited { source: file(1) }));
    assert_eq!(tree.mods()[0].parent, None);
}
