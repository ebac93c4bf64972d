use range_filters::{InfixStore, Key, YFastTrie};

#[test]
fn test_single_key() {
    let trie = YFastTrie::new_with_keys(&[42], 8);
    assert!(trie.contains(42));
}

#[test]
fn test_basic_contains() {
    let keys = vec![10, 20, 30, 40, 50, 60, 70, 80];
    let trie = YFastTrie::new_with_keys(&keys, 8);

    for &key in &keys {
        assert!(trie.contains(key), "key {} should be in trie", key);
    }

    assert!(!trie.contains(5));
    assert!(!trie.contains(15));
    assert!(!trie.contains(85));
}

#[test]
fn test_large_set() {
    let keys: Vec<Key> = (0..100).map(|i| i * 10).collect();
    let trie = YFastTrie::new_with_keys(&keys, 8);

    for &key in &keys {
        assert!(trie.contains(key), "key {} should exist", key);
    }

    assert!(!trie.contains(5));
    assert!(!trie.contains(15));
    assert!(!trie.contains(995));
}

#[test]
fn test_boundary_keys() {
    let keys: Vec<Key> = (0..40).collect();
    let trie = YFastTrie::new_with_keys(&keys, 8);

    assert!(trie.x_fast_trie().lookup(0).is_some());
    assert!(trie.x_fast_trie().lookup(8).is_some());
    assert!(trie.x_fast_trie().lookup(16).is_some());
    assert!(trie.x_fast_trie().lookup(24).is_some());
    assert!(trie.x_fast_trie().lookup(32).is_some());

    assert!(trie.x_fast_trie().lookup(1).is_none());
    assert!(trie.x_fast_trie().lookup(9).is_none());
    assert!(trie.x_fast_trie().lookup(17).is_none());

    for key in 0..40 {
        assert!(trie.contains(key), "key {} should be in trie", key);
    }
}

#[test]
fn y_fast_trie_test_predecessor() {
    let keys = vec![10, 20, 30, 40, 50];
    let trie = YFastTrie::new_with_keys(&keys, 8);

    assert_eq!(trie.predecessor(10), Some(10));
    assert_eq!(trie.predecessor(30), Some(30));
    assert_eq!(trie.predecessor(50), Some(50));

    assert_eq!(trie.predecessor(15), Some(10));
    assert_eq!(trie.predecessor(25), Some(20));
    assert_eq!(trie.predecessor(35), Some(30));
    assert_eq!(trie.predecessor(45), Some(40));

    assert_eq!(trie.predecessor(5), None);

    assert_eq!(trie.predecessor(60), Some(50));
}

#[test]
fn y_fast_trie_test_successor() {
    let keys = vec![10, 20, 30, 40, 50];
    let trie = YFastTrie::new_with_keys(&keys, 8);

    assert_eq!(trie.successor(10), Some(10));
    assert_eq!(trie.successor(30), Some(30));
    assert_eq!(trie.successor(50), Some(50));

    assert_eq!(trie.successor(15), Some(20));
    assert_eq!(trie.successor(25), Some(30));
    assert_eq!(trie.successor(35), Some(40));
    assert_eq!(trie.successor(45), Some(50));

    assert_eq!(trie.successor(5), Some(10));

    assert_eq!(trie.successor(60), None);
}

#[test]
fn test_predecessor_successor_across_boundaries() {
    let keys: Vec<Key> = (0..40).collect();
    let trie = YFastTrie::new_with_keys(&keys, 8);

    assert_eq!(trie.predecessor(7), Some(7));
    assert_eq!(trie.predecessor(8), Some(8));
    assert_eq!(trie.predecessor(9), Some(9));

    assert_eq!(trie.successor(7), Some(7));
    assert_eq!(trie.successor(8), Some(8));
    assert_eq!(trie.successor(9), Some(9));

    assert_eq!(trie.predecessor(15), Some(15));
    assert_eq!(trie.successor(15), Some(15));

    assert_eq!(trie.predecessor(16), Some(16));
    assert_eq!(trie.successor(16), Some(16));

    assert_eq!(trie.predecessor(17), Some(17));
    assert_eq!(trie.successor(17), Some(17));
}

#[test]
fn agrees_with_sorted_reference_on_many_keys() {
    let mut keys = Vec::new();
    let mut x: u64 = 987654321;
    for _ in 0..10_000 {
        x = x.wrapping_mul(6364136223846793005).wrapping_add(1442695040888963407);
        keys.push(x);
    }
    let trie = YFastTrie::new_with_keys(&keys, 64);
    let mut sorted = keys.clone();
    sorted.sort();
    sorted.dedup();
    let mut q: u64 = 42;
    for i in 0..3000 {
        q = q.wrapping_mul(2862933555777941757).wrapping_add(3037000493);
        let probe = if i % 3 == 0 { sorted[(q % sorted.len() as u64) as usize] } else { q };
        let pos = sorted.partition_point(|&s| s <= probe);
        let pred = if pos == 0 { None } else { Some(sorted[pos - 1]) };
        let pos2 = sorted.partition_point(|&s| s < probe);
        let succ = sorted.get(pos2).copied();
        assert_eq!(trie.predecessor(probe), pred);
        assert_eq!(trie.successor(probe), succ);
        assert_eq!(trie.contains(probe), sorted.binary_search(&probe).is_ok());
    }
    assert_eq!(trie.predecessor(0), if sorted[0] == 0 { Some(0) } else { None });
    assert_eq!(trie.successor(u64::MAX), if *sorted.last().unwrap() == u64::MAX { Some(u64::MAX) } else { None });
}

#[test]
fn empty_trie_answers_absent() {
    let trie = YFastTrie::new_with_keys(&[], 8);
    assert!(!trie.contains(0));
    assert_eq!(trie.predecessor(u64::MAX), None);
    assert_eq!(trie.successor(0), None);
    let fresh = YFastTrie::new(16);
    assert!(!fresh.contains(3));
}

#[test]
fn stores_follow_the_bucket_of_a_key() {
    let keys: Vec<Key> = (0..40).collect();
    let mut trie = YFastTrie::new_with_keys(&keys, 8);
    trie.set_infix_store(20, InfixStore::new_with_infixes(&[(3u64 << 8) | 77], 8));
    trie.set_infix_store(100, InfixStore::new_with_infixes(&[1], 8));
    assert_eq!(trie.predecessor_infix_store(20).unwrap().read_slot(0), 77);
    // 23 has no store and the last key below it on its search path, 22, has none either
    assert!(trie.predecessor_infix_store(23).is_none());
    assert!(trie.predecessor_infix_store(19).is_none());
    assert!(trie.predecessor_infix_store(25).is_none());
    assert!(trie.successor_infix_store(17).is_none());
    assert_eq!(trie.successor_infix_store(24).map(|s| s.read_slot(0)), None);
}

#[test]
fn bulk_build_boundaries_and_buckets() {
    let keys: Vec<Key> = (0..40).rev().chain(0..5).collect();
    let trie = YFastTrie::new_with_keys(&keys, 8);
    assert_eq!(trie.x_fast_trie().len(), 5);
    assert_eq!(trie.x_fast_trie().keys_in_order(), vec![0, 8, 16, 24, 32]);
    let wide = YFastTrie::new_with_keys(&(0..100).collect::<Vec<Key>>(), 12);
    assert_eq!(wide.x_fast_trie().keys_in_order(), vec![0, 12, 24, 36, 48, 60, 72, 84, 96]);
    assert_eq!(wide.predecessor(97), Some(97));
    assert_eq!(wide.successor(100), None);
}
