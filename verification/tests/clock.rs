use std::sync::Arc;

use ra_analysis::cancel::{Canceled, RevisionClock};
use ra_analysis::db::RootDatabase;
use ra_analysis::file_map::FileMap;
use ra_analysis::input::{FileId, SourceRoot, SourceRootId};
use ra_analysis::syntax::{ItemKind, SyntaxItem, TextSpan};
use ra_syntax::ast::{AstNode, ModuleItem, ModuleItemOwner, Name};
use ra_syntax::File;

/// What the parser finds in `text`: the items at the top of the file and
/// in the bodies of its inline modules, in source order.
fn parse(text: &str) -> Vec<SyntaxItem> {
    let file = File::parse(text);
    let mut items = Vec::new();
    list(file.ast().items(), None, &mut items);
    items
}

fn list<'a>(
    found: impl Iterator<Item = ModuleItem<'a>>,
    within: Option<TextSpan>,
    items: &mut Vec<SyntaxItem>,
) {
    for item in found {
        let at = item.syntax().range();
        let range = TextSpan { start: at.start().into(), end: at.end().into() };
        let (kind, body) = match item {
            ModuleItem::Module(module) => {
                (ItemKind::Module { has_semi: module.has_semi() }, module.item_list())
            }
            _ => (ItemKind::Other, None),
        };
        let name = item.syntax().children().find_map(Name::cast).map(|name| name.text().to_string());
        items.push(SyntaxItem { kind, name, range, within });
        if let Some(body) = body {
            list(body.items(), Some(range), items);
        }
    }
}

#[test]
fn a_new_clock_shows_revision_zero() {
    let clock = RevisionClock::new();
    assert_eq!(clock.current_revision(), 0);
    assert!(!clock.is_canceled(0));
    assert_eq!(clock.check_canceled(0), Ok(()));
}

#[test]
fn a_write_moves_the_clock_by_one() {
    let mut clock = RevisionClock::new();
    clock.note_write();
    assert_eq!(clock.current_revision(), 1);
    clock.note_write();
    clock.note_write();
    assert_eq!(clock.current_revision(), 3);
}

#[test]
fn canceled_means_the_clock_moved_past_the_start() {
    let mut clock = RevisionClock::new();
    clock.note_write();
    clock.note_write();
    assert!(clock.is_canceled(0));
    assert!(clock.is_canceled(1));
    assert!(!clock.is_canceled(2));
    assert!(!clock.is_canceled(3));
    assert_eq!(clock.check_canceled(1), Err(Canceled));
    assert_eq!(clock.check_canceled(2), Ok(()));
}

#[test]
fn a_computation_stays_canceled() {
    let mut clock = RevisionClock::new();
    let started_at = clock.current_revision();
    clock.note_write();
    for _ in 0..5 {
        assert_eq!(clock.check_canceled(started_at), Err(Canceled));
        clock.note_write();
    }
}

#[test]
fn every_write_to_the_database_moves_its_clock() {
    let mut db: RootDatabase<FileMap> = RootDatabase::new();
    assert_eq!(db.clock().current_revision(), 0);
    db.set_file_syntax(FileId(1), Arc::new(parse("")));
    assert_eq!(db.clock().current_revision(), 1);
    db.set_source_root(SourceRootId(0), Arc::new(SourceRoot::new(FileMap::new())));
    assert_eq!(db.clock().current_revision(), 2);
    db.set_file_syntax(FileId(1), Arc::new(parse("")));
    assert_eq!(db.clock().current_revision(), 3);
}

#[test]
fn a_snapshot_is_canceled_by_the_next_write() {
    let mut db: RootDatabase<FileMap> = RootDatabase::new();
    db.set_file_syntax(FileId(1), Arc::new(parse("")));
    let snapshot = db.fork();
    assert_eq!(snapshot.check_canceled(db.clock()), Ok(()));
    db.set_file_syntax(FileId(2), Arc::new(parse("")));
    assert_eq!(snapshot.check_canceled(db.clock()), Err(Canceled));
    assert_eq!(db.fork().check_canceled(db.clock()), Ok(()));
}

#[test]
fn queries_do_not_move_the_clock() {
    let mut db: RootDatabase<FileMap> = RootDatabase::new();
    db.set_source_root(SourceRootId(0), Arc::new(SourceRoot::new(FileMap::new())));
    let before = db.clock().current_revision();
    db.module_tree(SourceRootId(0));
    assert_eq!(db.clock().current_revision(), before);
}
