use range_filters::utils::{longest_common_prefix_length, sorted_unique_keys};

#[test]
fn common_prefix_lengths() {
    assert_eq!(longest_common_prefix_length(0, 0), 64);
    assert_eq!(longest_common_prefix_length(u64::MAX, u64::MAX), 64);
    assert_eq!(longest_common_prefix_length(0, u64::MAX), 0);
    assert_eq!(longest_common_prefix_length(0b1000, 0b1001), 63);
    assert_eq!(longest_common_prefix_length(0xF0 << 48, 0xFF << 48), 12);
}

#[test]
fn keys_sorted_and_deduplicated() {
    assert_eq!(sorted_unique_keys(&[5, 1, 5, 3, 1]), vec![1, 3, 5]);
    assert_eq!(sorted_unique_keys(&[]), Vec::<u64>::new());
    assert_eq!(sorted_unique_keys(&[u64::MAX, 0]), vec![0, u64::MAX]);
}
