use apollo::{clear, insert, query, Entry, Move, NodeType, TransTable};

fn entry(source: u8, dest: u8, depth: u64, ty: NodeType) -> Entry {
    Entry { best_move: Move { source, dest }, depth, ty }
}

#[test]
fn query_of_unknown_hash_is_none() {
    let mut table = TransTable::new();
    assert_eq!(query(&table, 42), None);
    insert(&mut table, 7, entry(12, 28, 3, NodeType::PV(15)));
    assert_eq!(query(&table, 42), None);
    assert!(!table.contains(42));
}

#[test]
fn first_write_wins() {
    let mut table = TransTable::new();
    let e1 = entry(12, 28, 2, NodeType::All(-30));
    let e2 = entry(6, 21, 9, NodeType::PV(40));
    insert(&mut table, 0xdead_beef, e1);
    insert(&mut table, 0xdead_beef, e2);
    assert_eq!(query(&table, 0xdead_beef), Some(e1));
}

#[test]
fn clear_forgets_entries() {
    let mut table = TransTable::new();
    let e1 = entry(1, 18, 4, NodeType::Cut(7));
    insert(&mut table, 99, e1);
    assert!(table.contains(99));
    clear(&mut table);
    assert_eq!(query(&table, 99), None);
    insert(&mut table, 99, entry(2, 3, 1, NodeType::PV(0)));
    assert_eq!(query(&table, 99), Some(entry(2, 3, 1, NodeType::PV(0))));
}

#[test]
fn many_inserts_one_survivor() {
    let mut table = TransTable::new();
    for i in 0..16u64 {
        insert(&mut table, u64::MAX, entry(i as u8, 0, i, NodeType::PV(i as i32)));
    }
    let first = query(&table, u64::MAX);
    assert_eq!(first, Some(entry(0, 0, 0, NodeType::PV(0))));
    assert_eq!(query(&table, u64::MAX), first);
}

#[test]
fn distinct_hashes_keep_their_entries() {
    let mut table = TransTable::new();
    insert(&mut table, 1, entry(1, 1, 1, NodeType::PV(1)));
    insert(&mut table, 2, entry(2, 2, 2, NodeType::All(2)));
    assert_eq!(query(&table, 1), Some(entry(1, 1, 1, NodeType::PV(1))));
    assert_eq!(query(&table, 2), Some(entry(2, 2, 2, NodeType::All(2))));
}
