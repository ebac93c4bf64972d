use range_filters::{Key, XFastTrie};

#[test]
fn test_single_insert() {
    let mut trie = XFastTrie::new(8);
    trie.insert(42);

    assert!(trie.head_rep().is_some());
    assert!(trie.tail_rep().is_some());

    if let Some(head) = trie.head_rep() {
        assert_eq!(head.key, 42);
    }
}

#[test]
fn test_multiple_inserts() {
    let mut trie = XFastTrie::new(8);
    let keys = vec![10, 5, 15, 3, 12];

    for key in &keys {
        trie.insert(*key);
    }

    if let Some(head) = trie.head_rep() {
        assert_eq!(head.key, 3);
    }

    if let Some(tail) = trie.tail_rep() {
        assert_eq!(tail.key, 15);
    }
}

#[test]
fn x_fast_trie_test_predecessor() {
    let mut trie = XFastTrie::new(8);
    let keys = vec![10, 20, 30, 40];

    for key in &keys {
        trie.insert(*key);
    }

    if let Some(pred) = trie.predecessor(25) {
        assert_eq!(pred.key, 20);
    }

    if let Some(pred) = trie.predecessor(35) {
        assert_eq!(pred.key, 30);
    }

    if let Some(pred) = trie.predecessor(30) {
        assert_eq!(pred.key, 30);
    }
}

#[test]
fn x_fast_trie_test_successor() {
    let mut trie = XFastTrie::new(8);
    let keys = vec![10, 20, 30, 40];

    for key in &keys {
        trie.insert(*key);
    }

    if let Some(succ) = trie.successor(25) {
        assert_eq!(succ.key, 30);
    }

    if let Some(succ) = trie.successor(15) {
        assert_eq!(succ.key, 20);
    }
}

#[test]
fn test_lookup() {
    let mut trie = XFastTrie::new(8);
    let keys = vec![10, 5, 15, 3, 12];

    for key in &keys {
        trie.insert(*key);
    }

    for key in &keys {
        assert!(trie.lookup(*key).is_some());
        if let Some(lookup) = trie.lookup(*key) {
            assert_eq!(lookup.key, *key);
        }
    }
}

#[test]
fn test_edge_cases() {
    let mut trie = XFastTrie::new(8);

    assert!(trie.predecessor(10).is_none());

    trie.insert(50);

    assert!(trie.predecessor(10).is_none());

    assert!(trie.successor(100).is_none());
}

fn verify_min_max(trie: &XFastTrie, level: usize, prefix: Key, expected_min: Key, expected_max: Key) {
    let value = trie.min_max_at(level, prefix);
    assert_eq!(
        value,
        Some((expected_min, expected_max)),
        "Level {}, prefix {}",
        level,
        prefix
    );
}

#[test]
fn test_min_max_values_comprehensive() {
    let mut trie = XFastTrie::new(8);
    let keys = vec![10, 5, 15, 3, 12];

    for key in &keys {
        trie.insert(*key);
    }

    verify_min_max(&trie, 1, 0b0, 3, 15);
    verify_min_max(&trie, 2, 0b00, 3, 15);
    verify_min_max(&trie, 3, 0b000, 3, 15);
    verify_min_max(&trie, 4, 0b0000, 3, 15);
    verify_min_max(&trie, 5, 0b00000, 3, 5);
    verify_min_max(&trie, 5, 0b00001, 10, 15);
    verify_min_max(&trie, 6, 0b000000, 3, 3);
    verify_min_max(&trie, 6, 0b000001, 5, 5);
    verify_min_max(&trie, 6, 0b000010, 10, 10);
    verify_min_max(&trie, 6, 0b000011, 12, 15);
    verify_min_max(&trie, 7, 0b0000001, 3, 3);
    verify_min_max(&trie, 7, 0b0000010, 5, 5);
    verify_min_max(&trie, 7, 0b0000101, 10, 10);
    verify_min_max(&trie, 7, 0b0000110, 12, 12);
    verify_min_max(&trie, 7, 0b0000111, 15, 15);
    verify_min_max(&trie, 8, 0b00000011, 3, 3);
    verify_min_max(&trie, 8, 0b00000101, 5, 5);
    verify_min_max(&trie, 8, 0b00001010, 10, 10);
    verify_min_max(&trie, 8, 0b00001100, 12, 12);
    verify_min_max(&trie, 8, 0b00001111, 15, 15);
}

#[test]
fn test_min_max_single_key() {
    let mut trie = XFastTrie::new(8);
    trie.insert(42);

    verify_min_max(&trie, 1, 0b0, 42, 42);
    verify_min_max(&trie, 2, 0b00, 42, 42);
    verify_min_max(&trie, 3, 0b001, 42, 42);
    verify_min_max(&trie, 4, 0b0010, 42, 42);
    verify_min_max(&trie, 5, 0b00101, 42, 42);
    verify_min_max(&trie, 6, 0b001010, 42, 42);
    verify_min_max(&trie, 7, 0b0010101, 42, 42);
    verify_min_max(&trie, 8, 0b00101010, 42, 42);
}

#[test]
fn test_min_max_adjacent_keys() {
    let mut trie = XFastTrie::new(8);
    trie.insert(8);
    trie.insert(9);

    verify_min_max(&trie, 1, 0b0, 8, 9);
    verify_min_max(&trie, 2, 0b00, 8, 9);
    verify_min_max(&trie, 3, 0b000, 8, 9);
    verify_min_max(&trie, 4, 0b0000, 8, 9);
    verify_min_max(&trie, 5, 0b00001, 8, 9);
    verify_min_max(&trie, 6, 0b000010, 8, 9);
    verify_min_max(&trie, 7, 0b0000100, 8, 9);

    verify_min_max(&trie, 8, 0b00001000, 8, 8);
    verify_min_max(&trie, 8, 0b00001001, 9, 9);
}

#[test]
fn test_min_max_sequential_insertion() {
    let mut trie = XFastTrie::new(8);

    for key in [1, 2, 3, 4, 5] {
        trie.insert(key);
    }

    verify_min_max(&trie, 1, 0b0, 1, 5);

    verify_min_max(&trie, 8, 0b00000001, 1, 1);
    verify_min_max(&trie, 8, 0b00000010, 2, 2);
    verify_min_max(&trie, 8, 0b00000011, 3, 3);
    verify_min_max(&trie, 8, 0b00000100, 4, 4);
    verify_min_max(&trie, 8, 0b00000101, 5, 5);
}

#[test]
fn test_min_max_reverse_insertion() {
    let mut trie = XFastTrie::new(8);

    for key in [5, 4, 3, 2, 1] {
        trie.insert(key);
    }

    verify_min_max(&trie, 1, 0b0, 1, 5);

    verify_min_max(&trie, 8, 0b00000001, 1, 1);
    verify_min_max(&trie, 8, 0b00000101, 5, 5);
}

#[test]
fn test_min_max_sparse_keys() {
    let mut trie = XFastTrie::new(16);

    trie.insert(1);
    trie.insert(128);
    trie.insert(255);
    trie.insert(64);

    verify_min_max(&trie, 1, 0b0, 1, 255);

    verify_min_max(&trie, 9, 0b000000000, 1, 64);
    verify_min_max(&trie, 9, 0b000000001, 128, 255);

    verify_min_max(&trie, 16, 0b0000000000000001, 1, 1);
    verify_min_max(&trie, 16, 0b0000000001000000, 64, 64);
    verify_min_max(&trie, 16, 0b0000000010000000, 128, 128);
    verify_min_max(&trie, 16, 0b0000000011111111, 255, 255);
}

#[test]
fn small_insert_scenario() {
    let mut trie = XFastTrie::new(8);
    for key in [10, 5, 15, 3, 12] {
        trie.insert(key);
    }
    assert_eq!(trie.head_rep().unwrap().key, 3);
    assert_eq!(trie.tail_rep().unwrap().key, 15);
    assert_eq!(trie.predecessor(8).unwrap().key, 5);
    assert_eq!(trie.predecessor(13).unwrap().key, 12);
    assert_eq!(trie.successor(8).unwrap().key, 10);
    assert!(trie.predecessor(2).is_none());
    assert_eq!(trie.predecessor(20).unwrap().key, 15);
    assert_eq!(trie.min_max_at(5, 0b00000), Some((3, 5)));
    assert_eq!(trie.min_max_at(5, 0b00001), Some((10, 15)));
    assert_eq!(trie.min_max_at(6, 0b000011), Some((12, 15)));
    assert_eq!(trie.min_max_at(5, 0b00011), None);
}

#[test]
fn linked_list_walks_in_order() {
    let mut trie = XFastTrie::new(16);
    let keys = [700u64, 3, 65535, 0, 128, 129, 4096, 7];
    for k in keys {
        trie.insert(k);
    }
    trie.insert(128);
    let mut sorted = keys.to_vec();
    sorted.sort();
    assert_eq!(trie.keys_in_order(), sorted);
    let mut reversed = sorted.clone();
    reversed.reverse();
    assert_eq!(trie.keys_in_reverse(), reversed);
    assert_eq!(trie.len(), keys.len());
    for k in keys {
        let rep = trie.lookup(k).unwrap();
        match rep.right {
            Some(j) => assert_eq!(trie.rep_at(j).key, *sorted.iter().find(|&&s| s > k).unwrap()),
            None => assert_eq!(k, 65535),
        }
        match rep.left {
            Some(j) => assert_eq!(trie.rep_at(j).key, *sorted.iter().rev().find(|&&s| s < k).unwrap()),
            None => assert_eq!(k, 0),
        }
    }
}

#[test]
fn queries_agree_with_sorted_reference() {
    let mut trie = XFastTrie::new(12);
    let mut keys = Vec::new();
    let mut x: u64 = 12345;
    for _ in 0..300 {
        x = x.wrapping_mul(6364136223846793005).wrapping_add(1442695040888963407);
        let k = (x >> 40) & 0xFFF;
        trie.insert(k);
        keys.push(k);
    }
    keys.sort();
    keys.dedup();
    assert_eq!(trie.len(), keys.len());
    for q in 0..5000u64 {
        let pred = keys.iter().copied().filter(|&s| s <= q).max();
        let succ = keys.iter().copied().filter(|&s| s >= q).min();
        assert_eq!(trie.predecessor(q).map(|r| r.key), pred);
        assert_eq!(trie.successor(q).map(|r| r.key), succ);
        assert_eq!(trie.lookup(q).is_some(), keys.binary_search(&q).is_ok());
    }
}

#[test]
fn full_width_keys() {
    let mut trie = XFastTrie::new(64);
    for k in [u64::MAX, 0, 1u64 << 63, (1u64 << 63) - 1] {
        trie.insert(k);
    }
    assert_eq!(trie.predecessor(u64::MAX - 1).unwrap().key, 1u64 << 63);
    assert_eq!(trie.successor(1).unwrap().key, (1u64 << 63) - 1);
    assert_eq!(trie.predecessor(1u64 << 62).unwrap().key, 0);
    assert_eq!(trie.min_max_at(0, 0), Some((0, u64::MAX)));
    assert_eq!(trie.min_max_at(1, 1), Some((1u64 << 63, u64::MAX)));
    assert_eq!(trie.min_max_at(64, 7), None);
}
