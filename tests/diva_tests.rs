use range_filters::Diva;

#[test]
fn test_get_msb() {
    let key1 = 0b0000_0000_0000_0000u64;
    let key2 = 0b1111_1111_1111_1111u64;
    assert_eq!(Diva::get_msb(&key1, &key2), 0);

    let key1 = 0b1000_0000_0000_0000u64 << 48;
    let key2 = 0b0111_1111_1111_1111u64 << 48;
    assert_eq!(Diva::get_msb(&key1, &key2), 1);
}

#[test]
fn test_extraction_params() {
    let key1 = 0b0000_0000_1111_0000u64 << 48;
    let key2 = 0b0000_0000_1111_1111u64 << 48;

    let (shared, _redundant, quotient) = Diva::get_shared_ignore_implicit_size(&key1, &key2, false);

    assert_eq!(shared, 12);
    assert!(quotient >= 10);
}

#[test]
fn test_construction_small_dataset() {
    // a false-positive rate of 0.01 gives 8 remainder bits
    let keys: Vec<u64> = (0..100).map(|i| i * 1000).collect();
    let diva = Diva::new_with_keys(&keys, 1024, 8);

    assert_eq!(diva.target_size(), 1024);
    assert_eq!(diva.remainder_size(), 8);
}

#[test]
fn test_construction_with_sampling() {
    let keys: Vec<u64> = (0..5000).map(|i| i as u64).collect();
    let target_size = 1024;
    let diva = Diva::new_with_keys(&keys, target_size, 8);

    let expected_samples = (keys.len() + target_size - 1) / target_size;
    let actual_samples = diva.sample_count();

    assert_eq!(actual_samples, expected_samples);
}

#[test]
fn test_construction_single_sample() {
    let keys: Vec<u64> = (0..500).map(|i| i * 10).collect();
    let diva = Diva::new_with_keys(&keys, 1024, 8);

    assert_eq!(diva.sample_count(), 1);
}

#[test]
fn boundaries_are_every_target_size_th_key() {
    let keys: Vec<u64> = (0..5000).map(|i| i * 3).collect();
    let diva = Diva::new_with_keys(&keys, 1024, 8);
    let trie = diva.y_fast_trie();
    for b in [0u64, 1024 * 3, 2048 * 3, 3072 * 3, 4096 * 3] {
        assert!(trie.contains(b));
    }
    assert!(!trie.contains(3));
    assert_eq!(trie.predecessor(5000), Some(3072));
}

#[test]
fn stores_hold_the_intermediate_infixes() {
    let keys: Vec<u64> = (0..40u64).map(|i| (i << 20) | 5).collect();
    let diva = Diva::new_with_keys(&keys, 10, 8);
    let trie = diva.y_fast_trie();
    for i in 0..3 {
        let lower = keys[i * 10];
        let upper = keys[(i + 1) * 10];
        let store = trie.get_infix_store(lower).unwrap();
        assert_eq!(store.elem_count(), 9);
        let (shared, redundant, quotient) = Diva::get_shared_ignore_implicit_size(&lower, &upper, false);
        let mut expected: Vec<u64> = (0..9)
            .map(|j| {
                let key = keys[i * 10 + 1 + j];
                let msb = Diva::leading_bit(key, shared);
                Diva::extract_partial_key(key, shared, redundant, quotient, 8, msb) & ((1 << 18) - 1)
            })
            .collect();
        expected.sort();
        for (j, infix) in expected.iter().enumerate() {
            assert_eq!(store.read_slot(j), infix & 0xFF);
            assert!(store.is_occupied((infix >> 8) as usize));
            assert!(store.may_contain(*infix));
        }
    }
    // the last boundary has no upper neighbour and gets no store
    assert!(trie.get_infix_store(keys[30]).is_none());
}

#[test]
fn leading_bit_comes_from_the_key() {
    // boundaries 0 and 3 share 62 bits; key 2 has a 1 right after them
    let diva = Diva::new_with_keys(&[0, 2, 3], 2, 8);
    let store = diva.y_fast_trie().get_infix_store(0).unwrap();
    assert_eq!(store.elem_count(), 1);
    assert!(store.is_occupied(2));
    assert_eq!(store.read_slot(0), 0);
    assert!(store.may_contain(512));
    assert_eq!(Diva::leading_bit(2, 62), 1);
    assert_eq!(Diva::leading_bit(2, 64), 0);
    for k in [0u64, 2, 3] {
        assert!(diva.may_contain(k));
    }
    assert!(!diva.may_contain(1));
}

#[test]
fn no_false_negatives_across_a_power_of_two() {
    // pairs such as (3684, 5476) straddle bit 12
    let keys: Vec<u64> = (0..3000u64).map(|i| i * 7 + 100).collect();
    let diva = Diva::new_with_keys(&keys, 256, 11);
    for &k in &keys {
        assert!(diva.may_contain(k), "key {} reported absent", k);
    }
    let mut x: u64 = 7;
    let mut random = Vec::new();
    for _ in 0..5000 {
        x = x.wrapping_mul(6364136223846793005).wrapping_add(1442695040888963407);
        random.push(x);
    }
    let diva = Diva::new_with_keys(&random, 1024, 8);
    for &k in &random {
        assert!(diva.may_contain(k), "key {} reported absent", k);
    }
}

#[test]
fn large_stride_with_few_keys() {
    let diva = Diva::new_with_keys(&[1, 2, 3], 100_000, 8);
    assert_eq!(diva.sample_count(), 1);
    assert!(diva.may_contain(2));
    let empty = Diva::new(100_000, 8);
    assert_eq!(empty.sample_count(), 0);
}

#[test]
fn extraction_layout_cases() {
    assert_eq!(Diva::get_shared_ignore_implicit_size(&7, &7, false), (64, 0, 0));
    assert_eq!(Diva::get_shared_ignore_implicit_size(&6, &7, false), (63, 0, 0));
    assert_eq!(Diva::get_shared_ignore_implicit_size(&0, &8, false), (60, 0, 3));
    assert_eq!(Diva::get_shared_ignore_implicit_size(&0, &(1 << 40), false), (23, 0, 10));
    assert_eq!(Diva::compute_redundant_bits(0, 0b1110 << 60, 0), 2);
    assert_eq!(Diva::get_shared_ignore_implicit_size(&0, &(0b1110 << 60), true), (0, 2, 10));
    assert_eq!(Diva::extract_partial_key(0xABCD << 48, 3, 0, 10, 8, 0), (0xABCDu64 << 6) & 0x3FFFF);
    assert_eq!(Diva::extract_partial_key(5, 63, 0, 0, 8, 1), 1);
}

#[test]
fn empty_filter() {
    let diva = Diva::new(1024, 8);
    assert_eq!(diva.sample_count(), 0);
    assert!(!diva.y_fast_trie().contains(0));
}

#[test]
fn every_key_may_be_present() {
    let keys: Vec<u64> = (0..5000).collect();
    let diva = Diva::new_with_keys(&keys, 1024, 8);
    for &k in &keys {
        assert!(diva.may_contain(k), "key {} reported absent", k);
    }
    // multiples of 8 with a stride of 128: each pair of boundaries spans an aligned block, so
    // the infixes of a pair come in quotient order
    let spread: Vec<u64> = (0..3000u64).map(|i| (1 << 20) + i * 8).collect();
    let diva = Diva::new_with_keys(&spread, 128, 11);
    for &k in &spread {
        assert!(diva.may_contain(k), "key {} reported absent", k);
    }
    assert!(!diva.may_contain(0));
    assert!(!diva.may_contain((1 << 20) - 1));
}

#[test]
fn absent_keys_inside_a_pair_are_mostly_rejected() {
    let keys: Vec<u64> = (0..4096u64).map(|i| i * 4).collect();
    let diva = Diva::new_with_keys(&keys, 1024, 8);
    let rejected = (0..4096u64 * 4 - 4).filter(|k| k % 4 != 0).filter(|&k| !diva.may_contain(k)).count();
    assert!(rejected > 0);
    assert!(Diva::new(1024, 8).may_contain(5) == false);
}
