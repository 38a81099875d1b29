use std::cell::Cell;
use std::sync::Arc;

use ra_analysis::builder::{module_tree, module_tree_unless};
use ra_analysis::cancel::Canceled;
use ra_analysis::db::RootDatabase;
use ra_analysis::file_map::FileMap;
use ra_analysis::input::{FileId, SourceRoot, SourceRootId};
use ra_analysis::resolve::Problem;
use ra_analysis::source::ModuleSource;
use ra_analysis::syntax::{ItemKind, SyntaxItem, TextSpan};
use ra_analysis::tree::{LinkId, ModuleId, ModuleTree};
use ra_syntax::ast::{AstNode, ModuleItem, ModuleItemOwner, Name};
use ra_syntax::File;

/// What the parser finds in `text`: the items at the top of the file and
/// in the bodies of its inline modules, in source order.
fn parse(text: &str) -> Vec<SyntaxItem> {
    let file = File::parse(text);
    let mut items = Vec::new();
    list(file.ast().items(), None, &mut items);
    items
}

fn list<'a>(
    found: impl Iterator<Item = ModuleItem<'a>>,
    within: Option<TextSpan>,
    items: &mut Vec<SyntaxItem>,
) {
    for item in found {
        let at = item.syntax().range();
        let range = TextSpan { start: at.start().into(), end: at.end().into() };
        let (kind, body) = match item {
            ModuleItem::Module(module) => {
                (ItemKind::Module { has_semi: module.has_semi() }, module.item_list())
            }
            _ => (ItemKind::Other, None),
        };
        let name = item.syntax().children().find_map(Name::cast).map(|name| name.text().to_string());
        items.push(SyntaxItem { kind, name, range, within });
        if let Some(body) = body {
            list(body.items(), Some(range), items);
        }
    }
}

const ROOT: SourceRootId = SourceRootId(0);

fn database(files: &[(u32, &str, &str)]) -> RootDatabase<FileMap> {
    let mut places = FileMap::new();
    for (id, path, _) in files {
        places.insert(FileId(*id), path);
    }
    let mut root = SourceRoot::new(places);
    let mut db = RootDatabase::new();
    for (id, _, text) in files {
        root.insert_file(FileId(*id));
        db.set_file_syntax(FileId(*id), Arc::new(parse(text)));
    }
    db.set_source_root(ROOT, Arc::new(root));
    db
}

fn tree_of(files: &[(u32, &str, &str)]) -> Arc<ModuleTree> {
    let db = database(files);
    let mut snapshot = db.fork();
    module_tree(&mut snapshot, db.clock(), ROOT).unwrap()
}

fn file(id: u32) -> ModuleSource {
    ModuleSource::SourceFile(FileId(id))
}

#[test]
fn empty_source_root_has_empty_tree() {
    let tree = tree_of(&[]);
    assert!(tree.mods().is_empty());
    assert!(tree.links().is_empty());
}

#[test]
fn declaration_resolves_to_sibling_file() {
    let tree = tree_of(&[(1, "/lib.rs", "mod foo;"), (2, "/foo.rs", "fn f() {}")]);
    assert_eq!(tree.mods().len(), 2);
    assert_eq!(tree.links().len(), 1);
    assert_eq!(tree.mods()[0].source, file(1));
    assert_eq!(tree.mods()[0].parent, None);
    assert_eq!(tree.mods()[0].children, vec![LinkId(0)]);
    assert_eq!(tree.mods()[1].source, file(2));
    assert_eq!(tree.mods()[1].parent, Some(LinkId(0)));
    assert!(tree.mods()[1].children.is_empty());
    assert_eq!(tree.links()[0].name, "foo");
    assert_eq!(tree.links()[0].owner, ModuleId(0));
    assert_eq!(tree.links()[0].points_to, vec![ModuleId(1)]);
    assert_eq!(tree.links()[0].problem, None);
}

#[test]
fn declaration_resolves_to_sibling_directory() {
    let tree = tree_of(&[
        (1, "/lib.rs", "mod foo;"),
        (2, "/foo/mod.rs", "mod bar;"),
        (3, "/foo/bar.rs", ""),
    ]);
    assert_eq!(tree.mods().len(), 3);
    assert_eq!(tree.mods()[1].source, file(2));
    assert_eq!(tree.mods()[2].source, file(3));
    assert_eq!(tree.mods()[2].parent, Some(LinkId(1)));
    assert_eq!(tree.links()[0].points_to, vec![ModuleId(1)]);
    assert_eq!(tree.links()[1].name, "bar");
    assert_eq!(tree.links()[1].owner, ModuleId(1));
    assert_eq!(tree.links()[1].points_to, vec![ModuleId(2)]);
    assert_eq!(tree.links()[1].problem, None);
}

#[test]
fn unresolved_declaration_names_the_sibling_file() {
    let tree = tree_of(&[(1, "/lib.rs", "mod m;")]);
    assert_eq!(tree.mods().len(), 1);
    assert_eq!(tree.links().len(), 1);
    assert_eq!(tree.links()[0].name, "m");
    assert!(tree.links()[0].points_to.is_empty());
    assert_eq!(
        tree.links()[0].problem,
        Some(Problem::UnresolvedModule { candidate: "../m.rs".to_string() })
    );
}

#[test]
fn unresolved_declaration_leaves_siblings_resolved() {
    let tree = tree_of(&[(1, "/lib.rs", "mod gone; mod here;"), (2, "/here.rs", "")]);
    assert_eq!(tree.links().len(), 2);
    assert!(tree.links()[0].points_to.is_empty());
    assert!(tree.links()[0].problem.is_some());
    assert_eq!(tree.links()[1].points_to, vec![ModuleId(1)]);
    assert_eq!(tree.links()[1].problem, None);
    assert_eq!(tree.mods()[0].children, vec![LinkId(0), LinkId(1)]);
}

#[test]
fn non_owner_declaration_is_not_resolved() {
    let tree = tree_of(&[
        (1, "/foo.rs", "mod bar;"),
        (2, "/bar.rs", ""),
        (3, "/foo/bar.rs", ""),
    ]);
    assert_eq!(tree.links().len(), 1);
    assert!(tree.links()[0].points_to.is_empty());
    assert_eq!(
        tree.links()[0].problem,
        Some(Problem::NotDirOwner {
            move_to: "../foo/mod.rs".to_string(),
            candidate: "../bar.rs".to_string(),
        })
    );
    // The files that the declaration might have meant stay roots of their own.
    assert_eq!(tree.mods().len(), 3);
    assert!(tree.mods().iter().all(|module| module.parent.is_none()));
}

#[test]
fn non_owner_declaration_without_target_has_the_same_problem() {
    let tree = tree_of(&[(1, "/foo.rs", "mod bar;")]);
    assert_eq!(
        tree.links()[0].problem,
        Some(Problem::NotDirOwner {
            move_to: "../foo/mod.rs".to_string(),
            candidate: "../bar.rs".to_string(),
        })
    );
}

#[test]
fn inline_definition_has_one_link_to_one_module() {
    let text = "mod m { fn f() {} }";
    let tree = tree_of(&[(1, "/lib.rs", text)]);
    let inline = ModuleSource::Inline(FileId(1), TextSpan { start: 0, end: text.len() as u32 });
    assert_eq!(tree.mods().len(), 2);
    assert_eq!(tree.mods()[1].source, inline);
    assert_eq!(tree.mods()[1].parent, Some(LinkId(0)));
    assert_eq!(tree.links().len(), 1);
    assert_eq!(tree.links()[0].name, "m");
    assert_eq!(tree.links()[0].points_to, vec![ModuleId(1)]);
    assert_eq!(tree.links()[0].problem, None);
}

#[test]
fn nested_inline_definitions_nest_in_the_tree() {
    let text = "mod a { mod b { } mod c; }";
    let tree = tree_of(&[(1, "/lib.rs", text), (2, "/c.rs", "")]);
    assert_eq!(tree.mods().len(), 4);
    assert_eq!(tree.mods()[1].source, ModuleSource::Inline(FileId(1), TextSpan { start: 0, end: 26 }));
    assert_eq!(tree.mods()[2].source, ModuleSource::Inline(FileId(1), TextSpan { start: 8, end: 17 }));
    assert_eq!(tree.mods()[1].children, vec![LinkId(1), LinkId(2)]);
    assert_eq!(tree.links()[1].name, "b");
    assert_eq!(tree.links()[1].points_to, vec![ModuleId(2)]);
    // A declaration inside an inline module is resolved from the file that
    // holds it.
    assert_eq!(tree.links()[2].name, "c");
    assert_eq!(tree.links()[2].owner, ModuleId(1));
    assert_eq!(tree.links()[2].points_to, vec![ModuleId(3)]);
    assert_eq!(tree.links()[2].problem, None);
    assert_eq!(tree.mods()[3].source, file(2));
    assert_eq!(tree.mods()[3].parent, Some(LinkId(2)));
}

#[test]
fn declarations_in_inline_modules_have_the_problems_of_their_file() {
    let tree = tree_of(&[(1, "/lib.rs", "mod a { mod gone; }"), (2, "/foo.rs", "mod b { mod c; }")]);
    assert_eq!(tree.links()[1].name, "gone");
    assert!(tree.links()[1].points_to.is_empty());
    assert_eq!(
        tree.links()[1].problem,
        Some(Problem::UnresolvedModule { candidate: "../gone.rs".to_string() })
    );
    assert_eq!(tree.links()[3].name, "c");
    assert!(tree.links()[3].points_to.is_empty());
    assert_eq!(
        tree.links()[3].problem,
        Some(Problem::NotDirOwner {
            move_to: "../foo/mod.rs".to_string(),
            candidate: "../c.rs".to_string(),
        })
    );
}

#[test]
fn both_candidates_are_kept_without_a_problem() {
    let tree = tree_of(&[
        (1, "/lib.rs", "mod foo;"),
        (2, "/foo/mod.rs", ""),
        (3, "/foo.rs", ""),
    ]);
    assert_eq!(tree.links().len(), 1);
    // The sibling file comes before the sibling directory.
    assert_eq!(tree.links()[0].points_to, vec![ModuleId(1), ModuleId(2)]);
    assert_eq!(tree.links()[0].problem, None);
    assert_eq!(tree.mods()[1].source, file(3));
    assert_eq!(tree.mods()[2].source, file(2));
    assert_eq!(tree.mods()[1].parent, Some(LinkId(0)));
    assert_eq!(tree.mods()[2].parent, Some(LinkId(0)));
}

#[test]
fn a_root_is_taken_over_by_a_later_declaration() {
    // The file with the smaller identifier is walked first and stands as a
    // root until the declaration in the second file claims it.
    let tree = tree_of(&[(1, "/foo.rs", "fn f() {}"), (2, "/lib.rs", "mod foo;")]);
    assert_eq!(tree.mods().len(), 2);
    assert_eq!(tree.mods()[0].source, file(1));
    assert_eq!(tree.mods()[0].parent, Some(LinkId(0)));
    assert_eq!(tree.mods()[1].source, file(2));
    assert_eq!(tree.mods()[1].parent, None);
    assert_eq!(tree.links()[0].owner, ModuleId(1));
    assert_eq!(tree.links()[0].points_to, vec![ModuleId(0)]);
    assert_eq!(tree.links()[0].problem, None);
}

#[test]
fn files_that_nothing_declares_stay_roots() {
    let tree = tree_of(&[(1, "/lib.rs", ""), (2, "/main.rs", ""), (3, "/other.rs", "")]);
    assert_eq!(tree.mods().len(), 3);
    assert!(tree.links().is_empty());
    for (index, module) in tree.mods().iter().enumerate() {
        assert_eq!(module.source, file(index as u32 + 1));
        assert_eq!(module.parent, None);
    }
}

#[test]
fn members_are_walked_in_the_order_of_their_identifiers() {
    let mut places = FileMap::new();
    places.insert(FileId(7), "/b.rs");
    places.insert(FileId(3), "/a.rs");
    let mut root = SourceRoot::new(places);
    root.insert_file(FileId(7));
    root.insert_file(FileId(3));
    let mut db = RootDatabase::new();
    db.set_source_root(ROOT, Arc::new(root));
    let tree = db.module_tree(ROOT);
    assert_eq!(tree.mods()[0].source, file(3));
    assert_eq!(tree.mods()[1].source, file(7));
}

#[test]
fn mutual_declarations_do_not_recurse() {
    let tree = tree_of(&[(1, "/lib.rs", "mod main;"), (2, "/main.rs", "mod lib;")]);
    assert_eq!(tree.mods().len(), 2);
    assert_eq!(tree.links().len(), 2);
    assert_eq!(tree.mods()[0].source, file(1));
    assert_eq!(tree.mods()[0].parent, None);
    assert_eq!(tree.mods()[1].source, file(2));
    assert_eq!(tree.mods()[1].parent, Some(LinkId(0)));
    assert_eq!(tree.links()[0].name, "main");
    assert_eq!(tree.links()[0].points_to, vec![ModuleId(1)]);
    assert_eq!(tree.links()[0].problem, None);
    // The declaration that leads back to the file being expanded makes no
    // second module for it.
    assert_eq!(tree.links()[1].name, "lib");
    assert_eq!(tree.links()[1].owner, ModuleId(1));
    assert!(tree.links()[1].points_to.is_empty());
    assert_eq!(tree.links()[1].problem, Some(Problem::AlreadyVisited { source: file(1) }));
}

#[test]
fn a_file_declared_twice_has_one_module() {
    let tree = tree_of(&[(1, "/lib.rs", "mod a; mod a;"), (2, "/a.rs", "")]);
    assert_eq!(tree.mods().len(), 2);
    assert_eq!(tree.links().len(), 2);
    assert_eq!(tree.links()[0].points_to, vec![ModuleId(1)]);
    assert_eq!(tree.links()[0].problem, None);
    assert!(tree.links()[1].points_to.is_empty());
    assert_eq!(tree.links()[1].problem, Some(Problem::AlreadyVisited { source: file(2) }));
    assert_eq!(tree.mods()[1].parent, Some(LinkId(0)));
}

#[test]
fn every_member_file_has_exactly_one_module() {
    let tree = tree_of(&[
        (1, "/lib.rs", "mod a; mod b; mod a;"),
        (2, "/a.rs", "mod x;"),
        (3, "/b/mod.rs", "mod c; mod lib;"),
        (4, "/b/c.rs", ""),
        (5, "/b/lib.rs", "mod c;"),
        (6, "/stray.rs", "mod q { mod r { } }"),
    ]);
    for id in 1..=6 {
        let count = tree.mods().iter().filter(|module| module.source == file(id)).count();
        assert_eq!(count, 1, "file {}", id);
    }
    for (index, module) in tree.mods().iter().enumerate() {
        let same = tree.mods().iter().filter(|other| other.source == module.source).count();
        assert_eq!(same, 1, "module {}", index);
    }
}

#[test]
fn indices_in_the_tree_are_valid() {
    let tree = tree_of(&[
        (1, "/lib.rs", "mod a; mod b; mod gone;"),
        (2, "/a.rs", "mod x { mod y { } }"),
        (3, "/b/mod.rs", "mod c;"),
        (4, "/b/c.rs", ""),
    ]);
    for (index, module) in tree.mods().iter().enumerate() {
        if let Some(parent) = module.parent {
            assert!(tree.links()[parent.0].points_to.contains(&ModuleId(index)));
        }
        for child in &module.children {
            assert_eq!(tree.links()[child.0].owner, ModuleId(index));
        }
    }
    for (index, link) in tree.links().iter().enumerate() {
        assert!(tree.mods()[link.owner.0].children.contains(&LinkId(index)));
        for target in &link.points_to {
            assert_eq!(tree.mods()[target.0].parent, Some(LinkId(index)));
        }
    }
}

#[test]
fn repeated_queries_give_equal_trees() {
    let files = [
        (1, "/lib.rs", "mod a; mod b { mod c; }"),
        (2, "/a.rs", "mod gone;"),
        (3, "/main.rs", "mod a;"),
    ];
    let first = tree_of(&files);
    let second = tree_of(&files);
    assert_eq!(*first, *second);

    let mut db = database(&files);
    let mut fork = db.fork();
    let on_fork = module_tree(&mut fork, db.clock(), ROOT).unwrap();
    let again = module_tree(&mut fork, db.clock(), ROOT).unwrap();
    let on_owner = db.module_tree(ROOT);
    assert_eq!(*on_fork, *first);
    assert_eq!(*again, *first);
    assert_eq!(*on_owner, *first);
}

#[test]
fn a_tree_is_built_once_per_revision() {
    let mut db = database(&[(1, "/lib.rs", "mod a;"), (2, "/a.rs", "")]);
    let first = db.module_tree(ROOT);
    let second = db.module_tree(ROOT);
    assert!(Arc::ptr_eq(&first, &second));
    // A fork starts out with what was memoized.
    let mut fork = db.fork();
    let on_fork = module_tree(&mut fork, db.clock(), ROOT).unwrap();
    assert!(Arc::ptr_eq(&first, &on_fork));
    // A write retires the memoized tree.
    db.set_file_syntax(FileId(2), Arc::new(parse("fn f() {}")));
    let third = db.module_tree(ROOT);
    assert!(!Arc::ptr_eq(&first, &third));
    assert_eq!(*first, *third);
}

#[test]
fn a_write_cancels_the_queries_of_earlier_forks() {
    let mut db = database(&[(1, "/lib.rs", "mod a;"), (2, "/a.rs", "")]);
    let mut stale = db.fork();
    assert!(module_tree(&mut stale, db.clock(), ROOT).is_ok());

    db.set_file_syntax(FileId(1), Arc::new(parse("mod a; mod b;")));
    assert_eq!(module_tree(&mut stale, db.clock(), ROOT), Err(Canceled));
    // It stays canceled, however often it is asked and however many writes follow.
    assert_eq!(module_tree(&mut stale, db.clock(), ROOT), Err(Canceled));
    db.set_file_syntax(FileId(2), Arc::new(parse("")));
    assert_eq!(module_tree(&mut stale, db.clock(), ROOT), Err(Canceled));

    // A fork made after the writes runs to the end and sees the new inputs.
    let mut fresh = db.fork();
    let tree = module_tree(&mut fresh, db.clock(), ROOT).unwrap();
    assert_eq!(tree.links().len(), 2);
    assert_eq!(tree.links()[1].name, "b");
    assert_eq!(
        tree.links()[1].problem,
        Some(Problem::UnresolvedModule { candidate: "../b.rs".to_string() })
    );
}

#[test]
fn a_fork_keeps_the_inputs_it_was_made_with() {
    let mut db = database(&[(1, "/lib.rs", "mod a;"), (2, "/a.rs", "")]);
    let mut fork = db.fork();
    let at_fork = db.clock().clone();
    db.set_file_syntax(FileId(1), Arc::new(parse("")));
    // Asked at the revision of the fork, it answers from the old text.
    let old = module_tree(&mut fork, &at_fork, ROOT).unwrap();
    assert_eq!(old.links().len(), 1);
    let new = db.module_tree(ROOT);
    assert!(new.links().is_empty());
    assert_eq!(new.mods().len(), 2);
}

#[test]
fn a_file_without_text_reads_as_empty() {
    let mut places = FileMap::new();
    places.insert(FileId(1), "/lib.rs");
    let mut root = SourceRoot::new(places);
    root.insert_file(FileId(1));
    let mut db = RootDatabase::new();
    db.set_source_root(ROOT, Arc::new(root));
    let tree = db.module_tree(ROOT);
    assert_eq!(tree.mods().len(), 1);
    assert!(tree.links().is_empty());
}

#[test]
fn a_resolved_file_outside_the_members_gets_a_module() {
    let mut places = FileMap::new();
    places.insert(FileId(1), "/lib.rs");
    places.insert(FileId(2), "/a.rs");
    let mut root = SourceRoot::new(places);
    root.insert_file(FileId(1));
    let mut db = RootDatabase::new();
    db.set_file_syntax(FileId(1), Arc::new(parse("mod a;")));
    db.set_source_root(ROOT, Arc::new(root));
    let tree = db.module_tree(ROOT);
    assert_eq!(tree.mods().len(), 2);
    assert_eq!(tree.mods()[1].source, file(2));
    assert_eq!(tree.links()[0].points_to, vec![ModuleId(1)]);
}

#[test]
fn malformed_text_still_gives_a_tree() {
    let tree = tree_of(&[(1, "/lib.rs", "mod a; fn ( { mod ; mod b { mod c"), (2, "/a.rs", "}}}")]);
    assert_eq!(tree.mods()[0].source, file(1));
    assert_eq!(tree.links()[0].name, "a");
    assert_eq!(tree.links()[0].points_to, vec![ModuleId(1)]);
    for id in 1..=2 {
        assert_eq!(tree.mods().iter().filter(|module| module.source == file(id)).count(), 1);
    }
}

#[test]
fn the_probe_is_asked_at_the_start_and_once_for_each_module() {
    let db = database(&[
        (1, "/lib.rs", "mod a; mod b { mod c { } } mod gone;"),
        (2, "/a.rs", ""),
        (3, "/main.rs", ""),
    ]);
    let asked = Cell::new(0);
    let canceled = || {
        asked.set(asked.get() + 1);
        false
    };
    let mut snapshot = db.fork();
    let tree = module_tree_unless(&mut snapshot, &canceled, ROOT).unwrap();
    assert_eq!(tree.mods().len(), 5);
    assert_eq!(asked.get(), 6);
    // The memoized tree is handed out after one more question.
    module_tree_unless(&mut snapshot, &canceled, ROOT).unwrap();
    assert_eq!(asked.get(), 7);
}

#[test]
fn the_probe_cancels_a_build_in_flight() {
    let files = [
        (1, "/lib.rs", "mod a; mod b { mod c { } }"),
        (2, "/a.rs", ""),
        (3, "/main.rs", ""),
    ];
    let db = database(&files);
    // Five modules are to be added; a probe that gives in at any question
    // up to the last one cancels the build.
    for patience in 0..6 {
        let asked = Cell::new(0);
        let canceled = || {
            asked.set(asked.get() + 1);
            asked.get() > patience
        };
        let mut snapshot = db.fork();
        assert_eq!(module_tree_unless(&mut snapshot, &canceled, ROOT), Err(Canceled));
        assert_eq!(asked.get(), patience + 1);
        // Nothing of the build that was cut short is kept: asked again
        // with patience, the snapshot gives the whole tree.
        let tree = module_tree_unless(&mut snapshot, &|| false, ROOT).unwrap();
        assert_eq!(*tree, *tree_of(&files));
    }
    let asked = Cell::new(0);
    let canceled = || {
        asked.set(asked.get() + 1);
        asked.get() > 6
    };
    let mut snapshot = db.fork();
    assert!(module_tree_unless(&mut snapshot, &canceled, ROOT).is_ok());
}

#[test]
fn every_module_has_a_link_for_each_submodule_of_its_source() {
    let mut db = database(&[
        (1, "/lib.rs", "mod a; mod b { mod c; mod d { } } mod gone; mod a;"),
        (2, "/a.rs", "mod x; mod y { }"),
        (3, "/main.rs", "mod lib; mod a;"),
    ]);
    let tree = db.module_tree(ROOT);
    for (index, module) in tree.mods().iter().enumerate() {
        let subs = db.submodules(module.source);
        assert_eq!(module.children.len(), subs.len(), "module {}", index);
        for (child, sub) in module.children.iter().zip(subs.iter()) {
            let link = &tree.links()[child.0];
            assert_eq!(&link.name, sub.name());
            assert_eq!(link.owner, ModuleId(index));
            match sub {
                ra_analysis::source::Submodule::Definition(_, inner) => {
                    assert_eq!(link.points_to.len(), 1);
                    assert_eq!(tree.mods()[link.points_to[0].0].source, *inner);
                    assert_eq!(link.problem, None);
                }
                ra_analysis::source::Submodule::Declaration(_) => {
                    for target in &link.points_to {
                        assert!(tree.mods()[target.0].source.as_file().is_some());
                    }
                }
            }
        }
    }
}

#[test]
fn a_body_that_is_defined_twice_has_one_module() {
    // No parser hands over two module items at one place; if the items say
    // so all the same, the second definition leads nowhere and says why.
    let module = |name: &str| SyntaxItem {
        kind: ItemKind::Module { has_semi: false },
        name: Some(name.to_string()),
        range: TextSpan { start: 0, end: 9 },
        within: None,
    };
    let mut places = FileMap::new();
    places.insert(FileId(1), "/lib.rs");
    let mut root = SourceRoot::new(places);
    root.insert_file(FileId(1));
    let mut db = RootDatabase::new();
    db.set_file_syntax(FileId(1), Arc::new(vec![module("a"), module("b")]));
    db.set_source_root(ROOT, Arc::new(root));
    let tree = db.module_tree(ROOT);

    let body = ModuleSource::Inline(FileId(1), TextSpan { start: 0, end: 9 });
    assert_eq!(tree.mods().len(), 2);
    assert_eq!(tree.mods()[1].source, body);
    assert_eq!(tree.mods()[1].parent, Some(LinkId(0)));
    assert_eq!(tree.links()[0].points_to, vec![ModuleId(1)]);
    assert_eq!(tree.links()[0].problem, None);
    assert!(tree.links()[1].points_to.is_empty());
    assert_eq!(tree.links()[1].problem, Some(Problem::AlreadyVisited { source: body }));
}

#[test]
fn modules_without_a_parent_are_whole_files() {
    let tree = tree_of(&[
        (1, "/lib.rs", "mod a { mod b { } } mod c;"),
        (2, "/c.rs", "mod d { }"),
        (3, "/stray.rs", "mod e { }"),
    ]);
    for module in tree.mods() {
        if module.parent.is_none() {
            assert!(module.source.as_file().is_some());
        }
    }
    assert_eq!(tree.mods().iter().filter(|module| module.parent.is_none()).count(), 2);
}
