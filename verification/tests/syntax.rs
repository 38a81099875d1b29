use std::sync::Arc;

use ra_analysis::cancel::Canceled;
use ra_analysis::db::RootDatabase;
use ra_analysis::file_map::FileMap;
use ra_analysis::fx::{RootTable, VisitedSet};
use ra_analysis::input::{FileId, SourceRoot, SourceRootId};
use ra_analysis::scope::{
    find_module_scope, module_scope, module_scope_unless, ModuleScope, ScopeEntry,
};
use ra_analysis::source::{
    collect_submodules, modules, source_items, submodules, submodules_unless, ModuleSource,
    NamedModule, Submodule,
};
use ra_analysis::syntax::{ItemKind, SyntaxItem, TextSpan};
use ra_analysis::tree::{LinkId, ModuleId, ModuleTree};
use ra_syntax::ast::{AstNode, ModuleItem, ModuleItemOwner, Name};
use ra_syntax::File;

/// What the parser finds in `text`: the items at the top of the file and
/// in the bodies of its inline modules, in source order.
fn parse(text: &str) -> Vec<SyntaxItem> {
    let file = File::parse(text);
    let mut items = Vec::new();
    list(file.ast().items(), None, &mut items);
    items
}

fn list<'a>(
    found: impl Iterator<Item = ModuleItem<'a>>,
    within: Option<TextSpan>,
    items: &mut Vec<SyntaxItem>,
) {
    for item in found {
        let at = item.syntax().range();
        let range = TextSpan { start: at.start().into(), end: at.end().into() };
        let (kind, body) = match item {
            ModuleItem::Module(module) => {
                (ItemKind::Module { has_semi: module.has_semi() }, module.item_list())
            }
            _ => (ItemKind::Other, None),
        };
        let name = item.syntax().children().find_map(Name::cast).map(|name| name.text().to_string());
        items.push(SyntaxItem { kind, name, range, within });
        if let Some(body) = body {
            list(body.items(), Some(range), items);
        }
    }
}

fn item(
    semi: Option<bool>,
    name: Option<&str>,
    start: u32,
    end: u32,
    within: Option<(u32, u32)>,
) -> SyntaxItem {
    SyntaxItem {
        kind: match semi {
            Some(has_semi) => ItemKind::Module { has_semi },
            None => ItemKind::Other,
        },
        name: name.map(|name| name.to_string()),
        range: span(start, end),
        within: within.map(|(start, end)| span(start, end)),
    }
}

fn span(start: u32, end: u32) -> TextSpan {
    TextSpan { start, end }
}

fn whole(id: u32) -> ModuleSource {
    ModuleSource::SourceFile(FileId(id))
}

fn inline(id: u32, start: u32, end: u32) -> ModuleSource {
    ModuleSource::Inline(FileId(id), span(start, end))
}

#[test]
fn items_of_a_file_come_in_source_order() {
    let items = source_items(&parse("struct S; mod a; fn f() {} mod b { }"), whole(1));
    assert_eq!(
        items,
        vec![
            item(None, Some("S"), 0, 9, None),
            item(Some(true), Some("a"), 10, 16, None),
            item(None, Some("f"), 17, 26, None),
            item(Some(false), Some("b"), 27, 36, None),
        ]
    );
}

#[test]
fn items_without_a_name_have_none() {
    let items = source_items(&parse("use a::b; impl S {} extern crate c;"), whole(1));
    assert_eq!(items.len(), 3);
    assert!(items.iter().all(|item| item.kind == ItemKind::Other));
    assert_eq!(items[0].name, None);
    assert_eq!(items[1].name, None);
    assert_eq!(items[2].name, Some("c".to_string()));
}

#[test]
fn items_of_an_inline_module_are_those_of_its_body() {
    let text = "fn out() {} mod m { fn f() {} mod n; }";
    let items = source_items(&parse(text), inline(1, 12, text.len() as u32));
    assert_eq!(items.len(), 2);
    assert_eq!(items[0].name, Some("f".to_string()));
    assert_eq!(items[0].range, span(20, 29));
    assert_eq!(items[1].name, Some("n".to_string()));
    assert_eq!(items[1].kind, ItemKind::Module { has_semi: true });
}

#[test]
fn an_inline_source_that_is_no_module_with_a_body_has_no_items() {
    let text = "fn f() { } mod a; mod b";
    // A function.
    assert!(source_items(&parse(text), inline(1, 0, 10)).is_empty());
    // A declaration.
    assert!(source_items(&parse(text), inline(1, 11, 17)).is_empty());
    // A module item without body and semicolon.
    assert!(source_items(&parse(text), inline(1, 18, 23)).is_empty());
    // Ranges that do not lie in the text.
    assert!(source_items(&parse(text), inline(1, 5, 2)).is_empty());
    assert!(source_items(&parse(text), inline(1, 0, 24)).is_empty());
    assert!(source_items(&parse(text), inline(1, 100, 200)).is_empty());
}

#[test]
fn offsets_count_bytes() {
    let text = "const E: char = 'é'; mod a { fn é() {} }";
    let items = source_items(&parse(text), whole(1));
    assert_eq!(items.len(), 2);
    assert_eq!(items[0].range, span(0, 21));
    assert_eq!(items[1].range, span(22, 42));
    assert_eq!(text.len(), 42);
    let inner = source_items(&parse(text), inline(1, 22, 42));
    assert_eq!(inner.len(), 1);
    assert_eq!(inner[0].name, Some("é".to_string()));
    assert_eq!(inner[0].range, span(30, 40));
}

#[test]
fn named_module_items_are_picked() {
    let items = source_items(&parse("mod a; fn f() {} mod b { } mod ; struct S;"), whole(1));
    assert_eq!(
        modules(&items),
        vec![
            NamedModule { name: "a".to_string(), has_semi: true, range: span(0, 6) },
            NamedModule { name: "b".to_string(), has_semi: false, range: span(17, 26) },
        ]
    );
    assert!(modules(&Vec::new()).is_empty());
}

#[test]
fn module_items_become_declarations_and_definitions() {
    let items = source_items(&parse("mod a; mod b { }"), whole(4));
    assert_eq!(
        collect_submodules(FileId(4), &items),
        vec![
            Submodule::Declaration("a".to_string()),
            Submodule::Definition("b".to_string(), inline(4, 7, 16)),
        ]
    );
}

#[test]
fn made_up_items_are_collected_like_parsed_ones() {
    let items = vec![
        item(Some(true), Some("a"), 0, 1, None),
        item(None, Some("f"), 2, 3, None),
        item(Some(false), None, 4, 5, None),
        item(Some(false), Some("b"), 6, 7, None),
    ];
    assert_eq!(
        collect_submodules(FileId(2), &items),
        vec![
            Submodule::Declaration("a".to_string()),
            Submodule::Definition("b".to_string(), inline(2, 6, 7)),
        ]
    );
    let scope = ModuleScope::new(&items);
    let names: Vec<&str> = scope.entries().iter().map(|entry| entry.name.as_str()).collect();
    assert_eq!(names, vec!["a", "f", "b"]);
}

#[test]
fn submodule_names() {
    assert_eq!(Submodule::Declaration("a".to_string()).name(), "a");
    assert_eq!(Submodule::Definition("b".to_string(), whole(1)).name(), "b");
}

#[test]
fn module_sources() {
    assert_eq!(whole(3).file_id(), FileId(3));
    assert_eq!(inline(4, 1, 2).file_id(), FileId(4));
    assert_eq!(whole(3).as_file(), Some(FileId(3)));
    assert_eq!(inline(4, 1, 2).as_file(), None);
    assert_eq!(ModuleSource::new_inline(FileId(4), span(1, 2)), inline(4, 1, 2));
    assert_eq!(whole(3).hash_key(), (0, 3, 0, 0));
    assert_eq!(inline(4, 1, 2).hash_key(), (1, 4, 1, 2));
    assert_eq!(whole(3).query_key(), 3);
    assert_eq!(inline(4, 1, 2).query_key(), (1 << 96) | (4 << 64) | (1 << 32) | 2);
    assert_ne!(inline(0, 0, 0).query_key(), whole(0).query_key());
}

fn database(files: &[(u32, &str, &str)]) -> RootDatabase<FileMap> {
    let mut places = FileMap::new();
    let mut db = RootDatabase::new();
    for (id, path, text) in files {
        places.insert(FileId(*id), path);
        db.set_file_syntax(FileId(*id), Arc::new(parse(text)));
    }
    let mut root = SourceRoot::new(places);
    for (id, _, _) in files {
        root.insert_file(FileId(*id));
    }
    db.set_source_root(SourceRootId(0), Arc::new(root));
    db
}

#[test]
fn submodules_of_sources() {
    let text = "mod m { fn f() {} }";
    let mut db = database(&[(1, "/lib.rs", text), (2, "/a.rs", "mod x; mod y;")]);
    assert_eq!(
        *db.submodules(whole(1)),
        vec![Submodule::Definition("m".to_string(), inline(1, 0, 19))]
    );
    assert!(db.submodules(inline(1, 0, 19)).is_empty());
    assert_eq!(
        *db.submodules(whole(2)),
        vec![Submodule::Declaration("x".to_string()), Submodule::Declaration("y".to_string())]
    );
    // A file that has no text declares nothing.
    assert!(db.submodules(whole(7)).is_empty());
}

#[test]
fn submodules_are_memoized_until_the_next_write() {
    let mut db = database(&[(1, "/lib.rs", "mod a;")]);
    let first = db.submodules(whole(1));
    let second = db.submodules(whole(1));
    assert!(Arc::ptr_eq(&first, &second));
    db.set_file_syntax(FileId(1), Arc::new(parse("mod b;")));
    assert_eq!(*db.submodules(whole(1)), vec![Submodule::Declaration("b".to_string())]);
    assert_eq!(*first, vec![Submodule::Declaration("a".to_string())]);
}

#[test]
fn submodules_on_a_stale_snapshot_are_canceled() {
    let mut db = database(&[(1, "/lib.rs", "mod a;")]);
    let mut snapshot = db.fork();
    assert!(submodules(&mut snapshot, db.clock(), whole(1)).is_ok());
    db.set_file_syntax(FileId(1), Arc::new(parse("")));
    // Also what was memoized is not handed out any more.
    assert_eq!(submodules(&mut snapshot, db.clock(), whole(1)), Err(Canceled));
}

#[test]
fn scope_of_a_file_module() {
    let mut db = database(&[(
        1,
        "/lib.rs",
        "use x::y; struct S; enum E {} fn f() {} mod m { fn inner() {} } impl S {} const C: u8 = 0; static T: u8 = 0; trait R {} type A = u8;",
    )]);
    let clock = db.clock().clone();
    let mut snapshot = db.fork();
    let scope = module_scope(&mut snapshot, &clock, SourceRootId(0), ModuleId(0)).unwrap();
    let names: Vec<&str> = scope.entries().iter().map(|entry| entry.name.as_str()).collect();
    assert_eq!(names, vec!["S", "E", "f", "m", "C", "T", "R", "A"]);
    assert_eq!(scope.entries()[0], ScopeEntry { name: "S".to_string(), range: span(10, 19) });

    let inner = module_scope(&mut snapshot, &clock, SourceRootId(0), ModuleId(1)).unwrap();
    let names: Vec<&str> = inner.entries().iter().map(|entry| entry.name.as_str()).collect();
    assert_eq!(names, vec!["inner"]);

    db.set_file_syntax(FileId(1), Arc::new(parse("")));
    assert_eq!(
        module_scope(&mut snapshot, db.clock(), SourceRootId(0), ModuleId(0)),
        Err(Canceled)
    );
}

#[test]
fn scope_of_an_inline_module_without_body_is_empty() {
    let mut db = database(&[(1, "/lib.rs", "fn f() {} mod m")]);
    let tree = db.module_tree(SourceRootId(0));
    assert_eq!(tree.mods().len(), 2);
    assert_eq!(tree.mods()[1].source, inline(1, 10, 15));
    let clock = db.clock().clone();
    let mut snapshot = db.fork();
    let scope = module_scope(&mut snapshot, &clock, SourceRootId(0), ModuleId(1)).unwrap();
    assert!(scope.entries().is_empty());
}

#[test]
fn visited_set_holds_what_was_inserted() {
    let mut set = VisitedSet::new();
    assert!(!set.contains(whole(1)));
    assert!(set.insert(whole(1)));
    assert!(!set.insert(whole(1)));
    assert!(set.insert(inline(1, 0, 0)));
    assert!(set.insert(inline(1, 0, 1)));
    assert!(set.contains(whole(1)));
    assert!(set.contains(inline(1, 0, 1)));
    assert!(!set.contains(whole(2)));
    assert!(!set.contains(inline(1, 1, 0)));
}

#[test]
fn root_table_hands_out_what_was_recorded() {
    let mut roots = RootTable::new();
    assert_eq!(roots.remove(FileId(1)), None);
    roots.insert(FileId(1), ModuleId(10));
    roots.insert(FileId(2), ModuleId(20));
    roots.insert(FileId(1), ModuleId(11));
    assert_eq!(roots.remove(FileId(1)), Some(ModuleId(11)));
    assert_eq!(roots.remove(FileId(1)), None);
    assert_eq!(roots.remove(FileId(2)), Some(ModuleId(20)));
}

#[test]
fn tree_arenas_hand_out_indices_in_order() {
    let mut tree = ModuleTree::new();
    let root = tree.push_mod(whole(1), None);
    let link = tree.push_link("a".to_string(), root);
    let child = tree.push_mod(whole(2), Some(link));
    let other = tree.push_link("b".to_string(), root);
    assert_eq!((root, child), (ModuleId(0), ModuleId(1)));
    assert_eq!((link, other), (LinkId(0), LinkId(1)));
    assert_eq!(tree.module(root).children, vec![link, other]);
    assert_eq!(tree.module(child).parent, Some(link));
    assert_eq!(tree.link(other).owner, root);
    assert!(tree.link(link).points_to.is_empty());

    tree.set_link(link, vec![child], None);
    tree.set_parent(root, other);
    assert_eq!(tree.link(link).points_to, vec![child]);
    assert_eq!(tree.link(link).name, "a");
    assert_eq!(tree.module(root).parent, Some(other));
    assert_eq!(tree.mods().len(), 2);
    assert_eq!(tree.links().len(), 2);
}

#[test]
fn scope_is_found_only_for_modules_of_the_tree() {
    let mut db = database(&[(1, "/lib.rs", "fn f() {} mod m { struct S; }")]);
    let clock = db.clock().clone();
    let mut snapshot = db.fork();
    let root = SourceRootId(0);

    let outer = find_module_scope(&mut snapshot, &clock, root, ModuleId(0)).unwrap().unwrap();
    let names: Vec<&str> = outer.entries().iter().map(|entry| entry.name.as_str()).collect();
    assert_eq!(names, vec!["f", "m"]);
    let inner = find_module_scope(&mut snapshot, &clock, root, ModuleId(1)).unwrap().unwrap();
    assert_eq!(inner.entries().len(), 1);
    assert_eq!(inner.entries()[0].name, "S");

    assert_eq!(find_module_scope(&mut snapshot, &clock, root, ModuleId(2)), Ok(None));
    assert_eq!(find_module_scope(&mut snapshot, &clock, SourceRootId(5), ModuleId(0)), Ok(None));

    db.set_file_syntax(FileId(1), Arc::new(parse("")));
    assert_eq!(find_module_scope(&mut snapshot, db.clock(), root, ModuleId(0)), Err(Canceled));
    assert_eq!(
        find_module_scope(&mut snapshot, db.clock(), SourceRootId(5), ModuleId(0)),
        Err(Canceled)
    );
}

#[test]
fn queries_follow_the_probe() {
    let db = database(&[(1, "/lib.rs", "mod a { fn f() {} }")]);
    let mut snapshot = db.fork();
    let root = SourceRootId(0);
    assert_eq!(submodules_unless(&mut snapshot, &|| true, whole(1)), Err(Canceled));
    assert_eq!(
        submodules_unless(&mut snapshot, &|| false, whole(1)).unwrap().len(),
        1
    );
    // What is memoized is not handed out either once the probe says no.
    assert_eq!(submodules_unless(&mut snapshot, &|| true, whole(1)), Err(Canceled));

    assert_eq!(module_scope_unless(&mut snapshot, &|| true, root, ModuleId(1)), Err(Canceled));
    let scope = module_scope_unless(&mut snapshot, &|| false, root, ModuleId(1)).unwrap();
    assert_eq!(scope.entries().len(), 1);
    assert_eq!(scope.entries()[0].name, "f");
}

#[test]
fn the_parser_hands_over_the_items_of_all_bodies() {
    assert_eq!(
        parse("fn f() {} mod a { struct S; mod b { fn g() {} } mod c; } mod d"),
        vec![
            item(None, Some("f"), 0, 9, None),
            item(Some(false), Some("a"), 10, 56, None),
            item(None, Some("S"), 18, 27, Some((10, 56))),
            item(Some(false), Some("b"), 28, 47, Some((10, 56))),
            item(None, Some("g"), 36, 45, Some((28, 47))),
            item(Some(true), Some("c"), 48, 54, Some((10, 56))),
            item(Some(false), Some("d"), 57, 62, None),
        ]
    );
}

#[test]
fn items_are_picked_by_the_body_they_stand_in() {
    let items = vec![
        item(None, Some("top"), 0, 1, None),
        item(Some(false), Some("m"), 2, 9, None),
        item(None, Some("in_m"), 3, 4, Some((2, 9))),
        item(Some(false), Some("n"), 5, 8, Some((2, 9))),
        item(None, Some("in_n"), 6, 7, Some((5, 8))),
        item(None, Some("last"), 10, 11, None),
        item(None, Some("also_in_m"), 12, 13, Some((2, 9))),
    ];
    let names = |source: ModuleSource| -> Vec<String> {
        source_items(&items, source).into_iter().map(|item| item.name.unwrap()).collect()
    };
    assert_eq!(names(whole(1)), vec!["top", "m", "last"]);
    assert_eq!(names(inline(1, 2, 9)), vec!["in_m", "n", "also_in_m"]);
    assert_eq!(names(inline(1, 5, 8)), vec!["in_n"]);
    assert!(names(inline(1, 2, 8)).is_empty());
    assert!(names(inline(1, 3, 4)).is_empty());
    // The items that are picked are handed out as they are.
    assert_eq!(source_items(&items, inline(1, 5, 8)), vec![items[4].duplicate()]);
    assert_eq!(items[4].duplicate(), items[4]);
    assert!(source_items(&Vec::new(), whole(1)).is_empty());
}

#[test]
fn sources_say_in_which_body_their_items_stand() {
    assert_eq!(whole(1).body_range(), None);
    assert_eq!(inline(1, 2, 9).body_range(), Some(span(2, 9)));
}
