use std::sync::Arc;

use range_filters::{BinarySearchTreeGroup, InfixStore};

#[test]
fn test_tree_construction() {
    let bst = BinarySearchTreeGroup::new_with_keys(&[1, 2, 3, 20, 30, 4, 5, 6, 7]);
    assert!(bst.contains(1));
    assert!(bst.contains(2));
    assert!(bst.contains(30));
    assert!(bst.contains(4));
    assert!(bst.contains(5));
    assert!(bst.contains(6));
    assert!(bst.contains(7));
    assert!(!bst.contains(8));
    assert!(!bst.contains(9));
    assert!(!bst.contains(10));
}

#[test]
fn test_tree_insertion() {
    let mut bst = BinarySearchTreeGroup::new();
    bst.insert(1);
    bst.insert(2);
    bst.insert(3);
    bst.insert(20);
    bst.insert(30);
    bst.insert(4);
    bst.insert(5);
    bst.insert(6);
    bst.insert(7);
    assert!(bst.contains(1));
    assert!(bst.contains(2));
    assert!(bst.contains(3));
    assert!(bst.contains(20));
    assert!(bst.contains(30));
    assert!(bst.contains(4));
    assert!(bst.contains(5));
    assert!(bst.contains(6));
    assert!(bst.contains(7));
    assert!(!bst.contains(8));
    assert!(!bst.contains(9));
    assert!(!bst.contains(10));
}

#[test]
fn test_predecessor_infix_store() {
    let mut bst = BinarySearchTreeGroup::new_with_keys(&[10, 20, 30, 40, 50]);

    bst.set_infix_store(10, InfixStore::default());
    bst.set_infix_store(20, InfixStore::default());
    bst.set_infix_store(30, InfixStore::default());
    bst.set_infix_store(40, InfixStore::default());
    bst.set_infix_store(50, InfixStore::default());

    let store_30 = bst.get_infix_store(30).unwrap();
    let pred_30 = bst.predecessor_infix_store(30).unwrap();
    assert!(Arc::ptr_eq(&store_30, &pred_30));

    let pred_35 = bst.predecessor_infix_store(35).unwrap();
    assert!(Arc::ptr_eq(&store_30, &pred_35));

    let store_20 = bst.get_infix_store(20).unwrap();
    let pred_25 = bst.predecessor_infix_store(25).unwrap();
    assert!(Arc::ptr_eq(&store_20, &pred_25));

    assert!(bst.predecessor_infix_store(5).is_none());

    let store_50 = bst.get_infix_store(50).unwrap();
    let pred_60 = bst.predecessor_infix_store(60).unwrap();
    assert!(Arc::ptr_eq(&store_50, &pred_60));
}

fn store_with_remainder(r: u64) -> InfixStore {
    InfixStore::new_with_infixes(&[(7u64 << 8) | r], 8)
}

#[test]
fn predecessor_store_carries_distinct_stores() {
    let mut bst = BinarySearchTreeGroup::new_with_keys(&[10, 20, 30, 40, 50]);
    for (i, k) in [10u64, 20, 30, 40, 50].iter().enumerate() {
        bst.set_infix_store(*k, store_with_remainder(i as u64 + 1));
    }
    assert_eq!(bst.predecessor_infix_store(35).unwrap().read_slot(0), 3);
    assert!(bst.predecessor_infix_store(5).is_none());
    assert_eq!(bst.predecessor_infix_store(60).unwrap().read_slot(0), 5);
    assert_eq!(bst.predecessor_infix_store(10).unwrap().read_slot(0), 1);
    assert_eq!(bst.successor_infix_store(35).unwrap().read_slot(0), 4);
    assert_eq!(bst.successor_infix_store(50).unwrap().read_slot(0), 5);
    assert!(bst.successor_infix_store(51).is_none());
    assert!(bst.get_infix_store(35).is_none());
}

#[test]
fn store_on_absent_key_changes_nothing() {
    let mut bst = BinarySearchTreeGroup::new_with_keys(&[10, 20]);
    bst.set_infix_store(15, InfixStore::default());
    assert!(bst.get_infix_store(15).is_none());
    assert!(bst.get_infix_store(10).is_none());
    assert!(!bst.contains(15));
    assert_eq!(bst.len(), 2);
}

#[test]
fn predecessor_and_successor_laws() {
    let keys = [3u64, 9, 27, 81, 243];
    let bst = BinarySearchTreeGroup::new_with_keys(&keys);
    for k in 0..300u64 {
        let pred = keys.iter().copied().filter(|&s| s <= k).max();
        let succ = keys.iter().copied().filter(|&s| s >= k).min();
        assert_eq!(bst.predecessor(k), pred);
        assert_eq!(bst.successor(k), succ);
        assert_eq!(bst.contains(k), keys.contains(&k));
    }
}

#[test]
fn duplicates_and_empty_input() {
    let bst = BinarySearchTreeGroup::new_with_keys(&[5, 5, 1, 5, 1]);
    assert_eq!(bst.len(), 2);
    assert_eq!(bst.predecessor(4), Some(1));
    assert_eq!(bst.successor(2), Some(5));
    let empty = BinarySearchTreeGroup::new_with_keys(&[]);
    assert_eq!(empty.len(), 0);
    assert_eq!(empty.predecessor(u64::MAX), None);
    assert_eq!(empty.successor(0), None);
    let mut grown = BinarySearchTreeGroup::new();
    grown.insert(u64::MAX);
    grown.insert(u64::MAX);
    grown.insert(0);
    assert_eq!(grown.len(), 2);
    assert_eq!(grown.successor(1), Some(u64::MAX));
}
