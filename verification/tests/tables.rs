use caolo_sim::node_table::NodeTable;
use caolo_sim::tables::BTreeTable;

#[test]
fn the_ordered_table_iterates_by_ascending_id() {
    let mut table = BTreeTable::new();
    for id in [5u64, 1, 9, 3, 7] {
        assert_eq!(table.insert(id, id * 10), None);
    }
    assert_eq!(table.len(), 5);
    let ids: Vec<u64> = (0..table.len()).map(|i| table.key_at(i)).collect();
    assert_eq!(ids, vec![1, 3, 5, 7, 9]);
    let rows: Vec<u64> = (0..table.len()).map(|i| *table.value_at(i)).collect();
    assert_eq!(rows, vec![10, 30, 50, 70, 90]);
}

#[test]
fn the_ordered_table_replaces_and_removes() {
    let mut table = BTreeTable::new();
    assert!(table.is_empty());
    assert_eq!(table.insert(4, 'a'), None);
    assert_eq!(table.insert(4, 'b'), Some('a'));
    assert_eq!(table.get_by_id(4), Some(&'b'));
    assert!(table.contains_key(4));
    assert_eq!(table.get_by_id(5), None);
    assert_eq!(table.remove(5), None);
    assert_eq!(table.remove(4), Some('b'));
    assert!(!table.contains_key(4));
    assert!(table.is_empty());
    table.insert(u64::MAX, 'z');
    table.insert(0, 'y');
    assert_eq!(table.key_at(0), 0);
    assert_eq!(table.key_at(1), u64::MAX);
    table.clear();
    assert_eq!(table.len(), 0);
}

#[test]
fn the_join_holds_the_ids_of_both_tables_in_order() {
    let mut a = BTreeTable::new();
    let mut b = BTreeTable::new();
    for id in [8u64, 2, 4, 6] {
        a.insert(id, ());
    }
    for id in [6u64, 3, 2, 9] {
        b.insert(id, 1u8);
    }
    assert_eq!(a.join_ids(&b), vec![2, 6]);
    assert_eq!(b.join_ids(&a), vec![2, 6]);
    let empty: BTreeTable<u8> = BTreeTable::new();
    assert_eq!(a.join_ids(&empty), Vec::<u64>::new());
}

#[test]
fn the_node_table_orders_negative_ids_first() {
    let mut table = NodeTable::new();
    for id in [3, -1, i32::MAX, i32::MIN, 0] {
        assert_eq!(table.insert(id, id as i64), None);
    }
    let ids: Vec<i32> = (0..table.len()).map(|i| table.id_at(i)).collect();
    assert_eq!(ids, vec![i32::MIN, -1, 0, 3, i32::MAX]);
    assert_eq!(table.get(-1), Some(&-1i64));
    assert_eq!(*table.value_at(0), i32::MIN as i64);
    assert!(table.contains_key(i32::MAX));
    assert!(!table.contains_key(1));
    assert_eq!(table.insert(3, 33), Some(3));
    assert_eq!(table.get(3), Some(&33));
}
