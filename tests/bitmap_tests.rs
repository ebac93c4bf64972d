use range_filters::bitmap::{clear_bit, rank_cached, select_cached, select_in_word};
use range_filters::{get_bit, rank, select, set_bit};

#[test]
fn test_set_and_get_bit() {
    let mut data = vec![0u64; 2];

    set_bit(&mut data, 0);
    set_bit(&mut data, 5);
    set_bit(&mut data, 63);

    assert!(get_bit(&data, 0));
    assert!(!get_bit(&data, 1));
    assert!(get_bit(&data, 5));
    assert!(get_bit(&data, 63));

    set_bit(&mut data, 64);
    set_bit(&mut data, 127);

    assert!(get_bit(&data, 64));
    assert!(get_bit(&data, 127));
    assert!(!get_bit(&data, 100));
}

#[test]
fn test_rank() {
    let mut data = vec![0u64; 2];

    set_bit(&mut data, 0);
    set_bit(&mut data, 2);
    set_bit(&mut data, 4);
    set_bit(&mut data, 64);
    set_bit(&mut data, 65);
    set_bit(&mut data, 127);

    assert_eq!(rank(&data, 0), 0);
    assert_eq!(rank(&data, 1), 1);
    assert_eq!(rank(&data, 3), 2);
    assert_eq!(rank(&data, 5), 3);
    assert_eq!(rank(&data, 64), 3);
    assert_eq!(rank(&data, 65), 4);
    assert_eq!(rank(&data, 128), 6);
}

#[test]
fn test_select() {
    let mut data = vec![0u64; 2];

    set_bit(&mut data, 0);
    set_bit(&mut data, 2);
    set_bit(&mut data, 4);
    set_bit(&mut data, 64);
    set_bit(&mut data, 65);
    set_bit(&mut data, 127);

    assert_eq!(select(&data, 0), Some(0));
    assert_eq!(select(&data, 1), Some(2));
    assert_eq!(select(&data, 2), Some(4));
    assert_eq!(select(&data, 3), Some(64));
    assert_eq!(select(&data, 4), Some(65));
    assert_eq!(select(&data, 5), Some(127));
    assert_eq!(select(&data, 6), None);
}

#[test]
fn test_select_in_word() {
    let word = 0b10101u64;

    assert_eq!(select_in_word(word, 0), Some(0));
    assert_eq!(select_in_word(word, 1), Some(2));
    assert_eq!(select_in_word(word, 2), Some(4));
    assert_eq!(select_in_word(word, 3), None);
}

#[test]
fn test_rank_select_consistency() {
    let mut data = vec![0u64; 4];

    let positions = vec![1, 7, 15, 63, 64, 100, 200, 255];
    for &pos in &positions {
        set_bit(&mut data, pos);
    }

    for (rank_, &expected_pos) in positions.iter().enumerate() {
        assert_eq!(select(&data, rank_), Some(expected_pos));
        assert_eq!(rank(&data, expected_pos + 1), rank_ + 1usize);
    }
}

#[test]
fn clear_bit_leaves_other_bits() {
    let mut data = vec![u64::MAX; 2];
    clear_bit(&mut data, 70);
    assert!(!get_bit(&data, 70));
    assert!(get_bit(&data, 69));
    assert!(get_bit(&data, 71));
    assert_eq!(data[0], u64::MAX);
    assert_eq!(data[1], u64::MAX & !(1u64 << 6));
}

#[test]
fn cached_rank_and_select_agree_with_plain() {
    let mut data = vec![0u64; 4];
    for pos in [3usize, 40, 64, 90, 128, 129, 200, 255] {
        set_bit(&mut data, pos);
    }
    let half = 128;
    let cached = rank(&data, half);
    assert_eq!(cached, 4);
    for pos in 0..=256 {
        assert_eq!(rank_cached(&data, pos, half, cached), rank(&data, pos));
    }
    for r in 0..10 {
        assert_eq!(select_cached(&data, r, half, cached), select(&data, r));
    }
    assert_eq!(select_cached(&data, 4, half, cached), Some(128));
    assert_eq!(select_cached(&data, 8, half, cached), None);
}

#[test]
fn select_on_empty_bitmap_is_absent() {
    let data = vec![0u64; 3];
    assert_eq!(select(&data, 0), None);
    assert_eq!(rank(&data, 192), 0);
}
