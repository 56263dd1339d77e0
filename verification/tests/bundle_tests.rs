use blockpack::bundle::{Bundle, BundleId, BundlePool};
use blockpack::tx::{Tx, TxId};

fn make_tx(id: TxId, gas: u64, fee: u64) -> Tx {
    Tx::new(id, gas, fee)
}

fn make_bundle(id: BundleId, txs: Vec<(TxId, u64, u64)>) -> Bundle {
    let transactions = txs.into_iter().map(|(id, gas, fee)| make_tx(id, gas, fee)).collect();
    Bundle::new(id, transactions)
}

#[test]
fn test_bundle_new() {
    let bundle = make_bundle(1, vec![(1, 21_000, 10), (2, 50_000, 20)]);

    assert_eq!(bundle.id, 1);
    assert_eq!(bundle.tx_count(), 2);
    assert_eq!(bundle.total_gas(), 71_000);
    assert_eq!(bundle.total_value(), 21_000 * 10 + 50_000 * 20);
}

#[test]
fn test_bundle_for_block() {
    let bundle = Bundle::for_block(1, vec![make_tx(1, 21_000, 10)], 100);

    assert!(bundle.is_valid_for_block(100));
    assert!(!bundle.is_valid_for_block(99));
    assert!(!bundle.is_valid_for_block(101));
}

#[test]
fn test_bundle_timestamp_range() {
    let bundle = Bundle::new(1, vec![make_tx(1, 21_000, 10)]).with_timestamp_range(Some(100), Some(200));

    assert!(!bundle.is_valid_for_timestamp(99));
    assert!(bundle.is_valid_for_timestamp(100));
    assert!(bundle.is_valid_for_timestamp(150));
    assert!(bundle.is_valid_for_timestamp(200));
    assert!(!bundle.is_valid_for_timestamp(201));
}

#[test]
fn test_bundle_can_afford_base_fee() {
    let txs = vec![Tx::new_eip1559(1, 21_000, 10, 50), Tx::new_eip1559(2, 21_000, 10, 100)];
    let bundle = Bundle::new(1, txs);

    assert!(bundle.can_afford_base_fee(50));
    assert!(!bundle.can_afford_base_fee(60)); // First tx can't afford
}

#[test]
fn test_bundle_pool_add() {
    let mut pool = BundlePool::new(10);

    let bundle = make_bundle(1, vec![(1, 21_000, 10)]);
    assert!(pool.add(bundle));

    assert_eq!(pool.len(), 1);
    assert!(pool.get(1).is_some());
}

#[test]
fn test_bundle_pool_capacity() {
    let mut pool = BundlePool::new(2);

    pool.add(make_bundle(1, vec![(1, 21_000, 10)])); // density = 10
    pool.add(make_bundle(2, vec![(2, 21_000, 20)])); // density = 20

    assert_eq!(pool.len(), 2);

    // Add better bundle, should evict bundle 1
    pool.add(make_bundle(3, vec![(3, 21_000, 30)])); // density = 30

    assert_eq!(pool.len(), 2);
    assert!(pool.get(1).is_none());
    assert!(pool.get(2).is_some());
    assert!(pool.get(3).is_some());
}

#[test]
fn test_bundle_pool_get_for_block() {
    let mut pool = BundlePool::new(10);

    pool.add(Bundle::for_block(1, vec![make_tx(1, 21_000, 10)], 100));
    pool.add(Bundle::for_block(2, vec![make_tx(2, 21_000, 20)], 101));
    pool.add(Bundle::new(3, vec![make_tx(3, 21_000, 30)])); // Any block

    let for_100 = pool.get_for_block(100);
    assert_eq!(for_100.len(), 2); // Bundle 1 and 3

    let for_101 = pool.get_for_block(101);
    assert_eq!(for_101.len(), 2); // Bundle 2 and 3
}

#[test]
fn test_bundle_pool_remove_expired() {
    let mut pool = BundlePool::new(10);

    pool.add(Bundle::for_block(1, vec![make_tx(1, 21_000, 10)], 100));
    pool.add(Bundle::for_block(2, vec![make_tx(2, 21_000, 20)], 101));
    pool.add(Bundle::for_block(3, vec![make_tx(3, 21_000, 30)], 102));

    let removed = pool.remove_expired(102);

    assert_eq!(removed, 2); // Bundles 1 and 2 expired
    assert_eq!(pool.len(), 1);
    assert!(pool.get(3).is_some());
}

#[test]
fn test_bundle_pool_sorted() {
    let mut pool = BundlePool::new(10);

    pool.add(make_bundle(1, vec![(1, 21_000, 10)])); // density = 10
    pool.add(make_bundle(2, vec![(2, 21_000, 30)])); // density = 30
    pool.add(make_bundle(3, vec![(3, 21_000, 20)])); // density = 20

    let sorted = pool.sorted_by_density();

    assert_eq!(sorted[0].id, 2);
    assert_eq!(sorted[1].id, 3);
    assert_eq!(sorted[2].id, 1);
}

#[test]
fn test_bundle_pool_stats() {
    let mut pool = BundlePool::new(10);

    pool.add(make_bundle(1, vec![(1, 21_000, 10)]));
    pool.add(make_bundle(2, vec![(2, 21_000, 20)]));
    pool.mark_included(1);

    let stats = pool.stats();

    assert_eq!(stats.count, 1);
    assert_eq!(stats.total_received, 2);
    assert_eq!(stats.total_included, 1);
}

#[test]
fn bundle_density_ratio_is_value_over_gas() {
    let bundle = make_bundle(1, vec![(1, 100_000, 20), (2, 50_000, 5)]);
    assert_eq!(bundle.density_ratio(), (2_250_000, 150_000));
    assert_eq!(Bundle::new(2, vec![]).density_ratio(), (0, 0));
    assert!(Bundle::new(2, vec![]).is_empty());
}

#[test]
fn bundle_value_at_base_fee_uses_effective_fee() {
    let bundle = Bundle::new(1, vec![Tx::new_eip1559(1, 10_000, 20, 100), make_tx(2, 1_000, 7)]);
    // at base 90: 10 * 10_000 + 7 * 1_000
    assert_eq!(bundle.total_value_at_base_fee(90), 107_000);
    assert_eq!(bundle.tx_ids(), vec![1, 2]);
}

#[test]
fn bundle_builders_set_fields() {
    let b = Bundle::new(1, vec![make_tx(1, 21_000, 10)])
        .with_target_block(5)
        .with_revert_protection(false);
    assert_eq!(b.target_block, Some(5));
    assert!(!b.revert_protection);
    assert!(b.is_valid_for_block(5));
    assert!(b.is_valid_for_timestamp(0));
}

#[test]
fn full_bundle_pool_refuses_no_better_bundle() {
    let mut pool = BundlePool::new(1);
    assert!(pool.add(make_bundle(1, vec![(1, 21_000, 10)])));
    assert!(!pool.add(make_bundle(2, vec![(2, 21_000, 10)])));
    assert!(pool.get(1).is_some());
    assert!(pool.get(2).is_none());
    assert_eq!(pool.stats().total_received, 2);
}

#[test]
fn bundle_pool_same_id_replaces() {
    let mut pool = BundlePool::new(1);
    pool.add(make_bundle(1, vec![(1, 21_000, 10)]));
    assert!(pool.add(make_bundle(1, vec![(9, 30_000, 1)])));
    assert_eq!(pool.len(), 1);
    assert_eq!(pool.get(1).unwrap().transactions[0].id, 9);
}

#[test]
fn bundle_pool_expiry_by_timestamp_and_removal() {
    let mut pool = BundlePool::new(10);
    pool.add(Bundle::new(1, vec![make_tx(1, 21_000, 10)]).with_timestamp_range(None, Some(50)));
    pool.add(Bundle::new(2, vec![make_tx(2, 21_000, 10)]).with_timestamp_range(None, Some(60)));
    pool.add(Bundle::new(3, vec![make_tx(3, 21_000, 10)]));
    assert_eq!(pool.remove_expired_by_timestamp(55), 1);
    assert_eq!(pool.stats().total_expired, 1);
    assert_eq!(pool.remove(2).map(|b| b.id), Some(2));
    assert!(pool.remove(2).is_none());
    pool.clear();
    assert!(pool.is_empty());
}

#[test]
fn bundle_pool_for_block_sorted() {
    let mut pool = BundlePool::new(10);
    pool.add(Bundle::for_block(1, vec![make_tx(1, 21_000, 10)], 7));
    pool.add(Bundle::for_block(2, vec![make_tx(2, 21_000, 50)], 8));
    pool.add(Bundle::new(3, vec![make_tx(3, 21_000, 30)]));
    let ids: Vec<u64> = pool.get_for_block_sorted(7).iter().map(|b| b.id).collect();
    assert_eq!(ids, vec![3, 1]);
}

#[test]
fn accepted_bundle_is_found_and_removal_forgets_it() {
    let mut pool = BundlePool::new(1);
    assert!(pool.add(make_bundle(1, vec![(1, 21_000, 10)])));
    assert!(pool.add(make_bundle(2, vec![(2, 21_000, 30)])));
    assert_eq!(pool.get(2).map(|b| b.total_value()), Some(21_000 * 30));
    assert!(pool.get(1).is_none());
    assert!(pool.remove(2).is_some());
    assert!(pool.get(2).is_none());
    assert!(pool.remove(2).is_none());
}

#[test]
fn can_add_checks_bundle_totals() {
    let pool = BundlePool::new(4);
    assert!(pool.can_add(&make_bundle(1, vec![(1, 21_000, 10)])));
    assert!(!pool.can_add(&make_bundle(2, vec![(2, 2, u64::MAX)])));
    assert!(!pool.can_add(&make_bundle(3, vec![(3, u64::MAX, 0), (4, 1, 0)])));
}

#[test]
fn fresh_bundle_pool_can_mark_included() {
    let mut pool = BundlePool::new(5);
    assert!(pool.can_mark_included());
    pool.mark_included(7);
    assert!(pool.can_mark_included());
    assert_eq!(pool.stats().total_included, 0);
}
