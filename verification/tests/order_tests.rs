use blockpack::order::{ratio_above, ratio_at_least, sort_desc, sort_ratio_desc};

#[test]
fn stable_sort_puts_larger_keys_first_and_keeps_ties_in_order() {
    let keys: Vec<u128> = vec![5, 7, 5, 9, 7];
    assert_eq!(sort_desc(&keys), vec![3, 1, 4, 0, 2]);
    let empty: Vec<u128> = Vec::new();
    assert_eq!(sort_desc(&empty), Vec::<usize>::new());
}

#[test]
fn ratios_compare_exactly() {
    // 1/3 against 333/1000: exact comparison, no rounding.
    assert!(ratio_above((1, 3), (333, 1000)));
    assert!(!ratio_above((333, 1000), (1, 3)));
    assert!(ratio_at_least((2, 4), (1, 2)));
    assert!(!ratio_above((2, 4), (1, 2)));
    // A ratio over zero gas counts as zero.
    assert!(ratio_at_least((0, 5), (7, 0)));
}

#[test]
fn ratio_sort_is_stable() {
    let ratios: Vec<(u64, u64)> = vec![(1, 2), (3, 1), (2, 4), (5, 2)];
    assert_eq!(sort_ratio_desc(&ratios), vec![1, 3, 0, 2]);
}
