use range_filters::InfixStore;

#[test]
fn test_split_infix() {
    let infix = 0b1010101010101010u64;
    let (quotient, remainder) = InfixStore::split_infix(infix, 8);

    assert_eq!(quotient, 0b10101010);
    assert_eq!(remainder, 0b10101010);

    let infix = 0b11110000_11001100u64;
    let (quotient, remainder) = InfixStore::split_infix(infix, 8);
    assert_eq!(quotient, 0b11110000);
    assert_eq!(remainder, 0b11001100);
}

#[test]
fn test_construction_simple() {
    let infixes = vec![
        (129u64 << 8) | 170,
        (129u64 << 8) | 188,
        (129u64 << 8) | 207,
        (340u64 << 8) | 51,
        (340u64 << 8) | 90,
    ];

    let store = InfixStore::new_with_infixes(&infixes, 8);

    assert_eq!(store.elem_count(), 5);
    assert_eq!(store.remainder_size(), 8);

    assert!(store.is_occupied(129));
    assert!(store.is_occupied(340));
    assert!(!store.is_occupied(0));
    assert!(!store.is_occupied(200));

    assert!(!store.is_runend(0));
    assert!(!store.is_runend(1));
    assert!(store.is_runend(2));
    assert!(!store.is_runend(3));
    assert!(store.is_runend(4));

    assert_eq!(store.read_slot(0), 170);
    assert_eq!(store.read_slot(1), 188);
    assert_eq!(store.read_slot(2), 207);
    assert_eq!(store.read_slot(3), 51);
    assert_eq!(store.read_slot(4), 90);
}

#[test]
fn test_construction_same_quotient() {
    let infixes = vec![
        (50u64 << 8) | 10,
        (50u64 << 8) | 20,
        (50u64 << 8) | 30,
        (50u64 << 8) | 40,
    ];

    let store = InfixStore::new_with_infixes(&infixes, 8);

    assert_eq!(store.elem_count(), 4);
    assert!(store.is_occupied(50));
    assert!(!store.is_occupied(49));
    assert!(!store.is_occupied(51));

    assert!(!store.is_runend(0));
    assert!(!store.is_runend(1));
    assert!(!store.is_runend(2));
    assert!(store.is_runend(3));

    assert_eq!(store.read_slot(0), 10);
    assert_eq!(store.read_slot(1), 20);
    assert_eq!(store.read_slot(2), 30);
    assert_eq!(store.read_slot(3), 40);
}

#[test]
fn test_construction_different_quotients() {
    let infixes = vec![(10u64 << 8) | 100, (20u64 << 8) | 101, (30u64 << 8) | 102];

    let store = InfixStore::new_with_infixes(&infixes, 8);

    assert_eq!(store.elem_count(), 3);

    assert!(store.is_occupied(10));
    assert!(store.is_occupied(20));
    assert!(store.is_occupied(30));

    assert!(store.is_runend(0));
    assert!(store.is_runend(1));
    assert!(store.is_runend(2));

    assert_eq!(store.read_slot(0), 100);
    assert_eq!(store.read_slot(1), 101);
    assert_eq!(store.read_slot(2), 102);
}

#[test]
fn test_empty_store() {
    let infixes: Vec<u64> = vec![];
    let store = InfixStore::new_with_infixes(&infixes, 8);

    assert_eq!(store.elem_count(), 0);
}

#[test]
fn test_remainder_size_variations() {
    for remainder_size in [4, 6, 8, 10, 12] {
        let max_remainder = (1u64 << remainder_size) - 1;
        let infixes = vec![
            (100u64 << remainder_size) | max_remainder,
            (100u64 << remainder_size) | (max_remainder - 1),
        ];

        let store = InfixStore::new_with_infixes(&infixes, remainder_size);

        assert_eq!(store.remainder_size(), remainder_size);
        assert_eq!(store.read_slot(0), max_remainder);
        assert_eq!(store.read_slot(1), max_remainder - 1);
    }
}

#[test]
fn round_trip_across_word_boundaries() {
    // 13-bit remainders straddle word boundaries; quotients repeat in runs of three
    let rs = 13u8;
    let infixes: Vec<u64> = (0..600u64)
        .map(|i| ((i / 3) << rs) | ((i * 2654435761) & ((1 << rs) - 1)))
        .collect();
    let store = InfixStore::new_with_infixes(&infixes, rs);
    assert_eq!(store.elem_count(), 600);
    assert_eq!(store.num_slots(), 600);
    for (i, infix) in infixes.iter().enumerate() {
        assert_eq!(store.read_slot(i), infix & ((1 << rs) - 1));
        assert_eq!(store.is_runend(i), i % 3 == 2);
    }
    for i in 600..store.num_slots() as usize {
        assert_eq!(store.read_slot(i), 0);
        assert!(!store.is_runend(i));
    }
    for q in 0..1024usize {
        assert_eq!(store.is_occupied(q), q < 200);
    }
    let occupied_first_half = (0..512).filter(|&q| q < 200).count() as u64;
    let runends_first_half = (0..300).filter(|i| i % 3 == 2).count() as u64;
    assert_eq!(store.cached_popcount_word(), (occupied_first_half << 32) | runends_first_half);
}

#[test]
fn size_grade_follows_count() {
    let one = InfixStore::new_with_infixes(&[5], 8);
    assert_eq!(one.num_slots(), 463);
    let infixes: Vec<u64> = (0..1000u64).map(|i| (i % 1024) << 4).collect();
    let store = InfixStore::new_with_infixes(&infixes, 4);
    assert_eq!(store.num_slots(), 1024);
    let full: Vec<u64> = (0..2326u64).map(|i| ((i / 3) << 16) | i).collect();
    let big = InfixStore::new_with_infixes(&full, 16);
    assert_eq!(big.num_slots(), 2326);
    assert_eq!(big.read_slot(2325), 2325);
    let empty = InfixStore::default();
    assert_eq!(empty.elem_count(), 0);
    assert_eq!(empty.remainder_size(), 0);
    assert_eq!(empty.num_slots(), 463);
}

#[test]
fn membership_follows_runs() {
    let infixes = vec![
        (129u64 << 8) | 170,
        (129u64 << 8) | 188,
        (129u64 << 8) | 207,
        (340u64 << 8) | 51,
        (340u64 << 8) | 90,
    ];
    let store = InfixStore::new_with_infixes(&infixes, 8);
    for infix in &infixes {
        assert!(store.may_contain(*infix));
    }
    assert!(!store.may_contain((129u64 << 8) | 171));
    assert!(!store.may_contain((340u64 << 8) | 170));
    assert!(!store.may_contain((200u64 << 8) | 51));
    assert!(!store.may_contain(0));
}

#[test]
fn membership_in_a_full_store() {
    let infixes: Vec<u64> = (0..2000u64).map(|i| ((i / 2) << 10) | (i * 37 % 1024)).collect();
    let store = InfixStore::new_with_infixes(&infixes, 10);
    for infix in &infixes {
        assert!(store.may_contain(*infix));
    }
    assert!(!store.may_contain((1000u64 << 10) | 5));
    let absent = (7u64 << 10) | ((14 * 37 + 1) % 1024);
    assert!(!store.may_contain(absent));
}

#[test]
fn empty_store_words_are_zero() {
    let store = InfixStore::new_with_infixes(&[], 12);
    assert_eq!(store.cached_popcount_word(), 0);
    assert_eq!(store.num_slots(), 463);
    for i in 0..463 {
        assert_eq!(store.read_slot(i), 0);
        assert!(!store.is_runend(i));
    }
    for q in 0..1024 {
        assert!(!store.is_occupied(q));
    }
    assert!(!store.may_contain(5));
}
