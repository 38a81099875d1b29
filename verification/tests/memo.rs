use ra_analysis::memo::MemoTable;

#[test]
fn an_empty_table_answers_nothing() {
    let table: MemoTable<u32> = MemoTable::new();
    assert_eq!(table.lookup(0, 0), None);
    assert_eq!(table.lookup(7, 3), None);
}

#[test]
fn an_entry_answers_at_its_revision_only() {
    let mut table = MemoTable::new();
    table.store(7, 3, "seven");
    assert_eq!(table.lookup(7, 3), Some(&"seven"));
    assert_eq!(table.lookup(7, 2), None);
    assert_eq!(table.lookup(7, 4), None);
    assert_eq!(table.lookup(8, 3), None);
}

#[test]
fn a_later_entry_takes_the_place_of_an_earlier_one() {
    let mut table = MemoTable::new();
    table.store(1, 0, 10);
    table.store(1, 1, 11);
    table.store(2, 1, 20);
    assert_eq!(table.lookup(1, 0), None);
    assert_eq!(table.lookup(1, 1), Some(&11));
    assert_eq!(table.lookup(2, 1), Some(&20));
    table.store(1, 1, 12);
    assert_eq!(table.lookup(1, 1), Some(&12));
}

#[test]
fn a_duplicate_has_the_entries_and_goes_its_own_way() {
    let mut table = MemoTable::new();
    table.store(1, 5, 'a');
    let mut copy = table.duplicate();
    assert_eq!(copy.lookup(1, 5), Some(&'a'));
    copy.store(2, 5, 'b');
    table.store(1, 6, 'c');
    assert_eq!(copy.lookup(1, 5), Some(&'a'));
    assert_eq!(copy.lookup(2, 5), Some(&'b'));
    assert_eq!(table.lookup(2, 5), None);
    assert_eq!(table.lookup(1, 6), Some(&'c'));
}

#[test]
fn keys_use_the_whole_width() {
    let mut table = MemoTable::new();
    table.store(u128::MAX, u64::MAX, 1);
    table.store(1 << 96, 0, 2);
    assert_eq!(table.lookup(u128::MAX, u64::MAX), Some(&1));
    assert_eq!(table.lookup(1 << 96, 0), Some(&2));
    assert_eq!(table.lookup((1 << 96) - 1, 0), None);
}
