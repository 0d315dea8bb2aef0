use connect_four::transition_table::{Entry, TransitionTable, TABLE_MAX_SIZE};

#[test]
fn new_entry_holds_nothing() {
    let e = Entry::new();
    assert_eq!(e.key, 0);
    assert_eq!(e.val, 0);
    assert!(!e.used);
}

#[test]
fn get_after_set_returns_the_value() {
    let mut t = TransitionTable::new();
    t.set(17, 5);
    assert_eq!(t.get(17), Some(5));
    t.set(17, -3);
    assert_eq!(t.get(17), Some(-3));
    t.set(u64::MAX, 127);
    assert_eq!(t.get(u64::MAX), Some(127));
    assert_eq!(t.get(17), Some(-3));
}

#[test]
fn new_table_holds_no_key() {
    let t = TransitionTable::new();
    assert_eq!(t.get(0), None);
    assert_eq!(t.get(1), None);
    assert_eq!(t.get(TABLE_MAX_SIZE as u64), None);
    assert_eq!(t.get(u64::MAX), None);
}

#[test]
fn key_nought_and_value_nought_are_kept() {
    let mut t = TransitionTable::new();
    t.set(0, 0);
    assert_eq!(t.get(0), Some(0));
    assert_eq!(t.get(TABLE_MAX_SIZE as u64), None);
}

#[test]
fn a_write_takes_the_slot() {
    let mut t = TransitionTable::new();
    let other = 17 + TABLE_MAX_SIZE as u64;
    t.set(17, 5);
    t.set(18, 6);
    t.set(other, 9);
    assert_eq!(t.get(17), None);
    assert_eq!(t.get(other), Some(9));
    assert_eq!(t.get(18), Some(6));
}

#[test]
fn reset_forgets_every_key() {
    let mut t = TransitionTable::new();
    t.set(0, 1);
    t.set(17, 5);
    t.set(u64::MAX, -1);
    t.reset();
    assert_eq!(t.get(0), None);
    assert_eq!(t.get(17), None);
    assert_eq!(t.get(u64::MAX), None);
    t.set(17, 4);
    assert_eq!(t.get(17), Some(4));
}
