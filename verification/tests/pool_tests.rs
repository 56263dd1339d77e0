use blockpack::pool::{Pool, PoolPressure};
use blockpack::tx::{Tx, TxId};

fn make_tx(id: TxId, gas: u64, fee: u64) -> Tx {
    Tx::new(id, gas, fee)
}

#[test]
fn test_new_pool() {
    let pool = Pool::new(100);
    assert!(pool.is_empty());
    assert_eq!(pool.len(), 0);
    assert!(!pool.is_full());
    assert_eq!(pool.pressure(), PoolPressure::Low);
}

#[test]
fn test_insert_and_get() {
    let mut pool = Pool::new(100);
    let tx = make_tx(1, 21_000, 10);

    assert!(pool.insert(tx).is_none());
    assert_eq!(pool.len(), 1);
    assert!(pool.contains(1));

    let retrieved = pool.get(1).unwrap();
    assert_eq!(retrieved.id, 1);
    assert_eq!(retrieved.gas_limit, 21_000);
}

#[test]
fn test_insert_duplicate_replaces() {
    let mut pool = Pool::new(100);
    pool.insert(make_tx(1, 21_000, 10));
    pool.insert(make_tx(1, 50_000, 20));

    assert_eq!(pool.len(), 1);
    let tx = pool.get(1).unwrap();
    assert_eq!(tx.gas_limit, 50_000);
}

#[test]
fn test_remove() {
    let mut pool = Pool::new(100);
    pool.insert(make_tx(1, 21_000, 10));
    pool.insert(make_tx(2, 21_000, 20));

    let removed = pool.remove(1);
    assert!(removed.is_some());
    assert_eq!(removed.unwrap().id, 1);
    assert_eq!(pool.len(), 1);
    assert!(!pool.contains(1));
}

#[test]
fn test_full_pool_eviction() {
    let mut pool = Pool::new(3);
    pool.insert(make_tx(1, 21_000, 10));
    pool.insert(make_tx(2, 21_000, 20));
    pool.insert(make_tx(3, 21_000, 30));

    assert!(pool.is_full());

    let rejected = pool.insert(make_tx(4, 21_000, 25));
    assert!(rejected.is_none());
    assert!(!pool.contains(1));
    assert!(pool.contains(4));
}

#[test]
fn test_full_pool_rejection() {
    let mut pool = Pool::new(3);
    pool.insert(make_tx(1, 21_000, 20));
    pool.insert(make_tx(2, 21_000, 30));
    pool.insert(make_tx(3, 21_000, 40));

    let rejected = pool.insert(make_tx(4, 21_000, 10));
    assert!(rejected.is_some());
    assert_eq!(rejected.unwrap().id, 4);
    assert!(!pool.contains(4));
}

#[test]
fn test_sorted_by_density() {
    let mut pool = Pool::new(100);
    pool.insert(make_tx(1, 21_000, 10));
    pool.insert(make_tx(2, 21_000, 30));
    pool.insert(make_tx(3, 21_000, 20));

    let sorted = pool.sorted_by_density();
    assert_eq!(sorted[0].id, 2);
    assert_eq!(sorted[1].id, 3);
    assert_eq!(sorted[2].id, 1);
}

#[test]
fn test_pool_pressure_levels() {
    let mut pool = Pool::new(100);

    // Low pressure (< 50%)
    for i in 1..=40 {
        pool.insert(make_tx(i, 21_000, 10));
    }
    assert_eq!(pool.pressure(), PoolPressure::Low);

    // Medium pressure (50-80%)
    for i in 41..=70 {
        pool.insert(make_tx(i, 21_000, 10));
    }
    assert_eq!(pool.pressure(), PoolPressure::Medium);

    // High pressure (80-95%)
    for i in 71..=90 {
        pool.insert(make_tx(i, 21_000, 10));
    }
    assert_eq!(pool.pressure(), PoolPressure::High);

    // Critical pressure (>= 95%)
    for i in 91..=100 {
        pool.insert(make_tx(i, 21_000, 10));
    }
    assert_eq!(pool.pressure(), PoolPressure::Critical);
}

#[test]
fn test_stats_with_pressure() {
    let mut pool = Pool::new(10);
    for i in 1..=8 {
        pool.insert(make_tx(i, 21_000, i * 10));
    }

    let stats = pool.stats();
    assert_eq!(stats.count, 8);
    assert_eq!(stats.pressure, PoolPressure::High);
    assert!(stats.total_inserted > 0);
}

#[test]
fn test_remove_many() {
    let mut pool = Pool::new(100);
    pool.insert(make_tx(1, 21_000, 10));
    pool.insert(make_tx(2, 21_000, 20));
    pool.insert(make_tx(3, 21_000, 30));

    let removed = pool.remove_many(&[1, 3, 999]);
    assert_eq!(removed, 2);
    assert_eq!(pool.len(), 1);
    assert!(pool.contains(2));
}

#[test]
fn pool_test_clear() {
    let mut pool = Pool::new(100);
    pool.insert(make_tx(1, 21_000, 10));
    pool.insert(make_tx(2, 21_000, 20));

    pool.clear();
    assert!(pool.is_empty());
    assert_eq!(pool.len(), 0);
}

#[test]
fn test_sorted_by_value() {
    let mut pool = Pool::new(100);
    pool.insert(make_tx(1, 100_000, 10)); // value = 1_000_000
    pool.insert(make_tx(2, 21_000, 30)); // value = 630_000
    pool.insert(make_tx(3, 50_000, 25)); // value = 1_250_000

    let sorted = pool.sorted_by_value();
    assert_eq!(sorted[0].id, 3); // value 1_250_000
    assert_eq!(sorted[1].id, 1); // value 1_000_000
    assert_eq!(sorted[2].id, 2); // value 630_000
}

#[test]
fn pool_stats_exact_values() {
    let mut pool = Pool::new(10);
    pool.insert(make_tx(1, 21_000, 10));
    pool.insert(make_tx(2, 30_000, 40));
    let stats = pool.stats();
    assert_eq!(stats.count, 2);
    assert_eq!(stats.total_gas, 51_000);
    assert_eq!(stats.total_value, 21_000 * 10 + 30_000 * 40);
    assert_eq!(stats.min_density, 10);
    assert_eq!(stats.max_density, 40);
    assert_eq!(stats.pressure, PoolPressure::Low);
    assert_eq!(stats.total_inserted, 2);
    assert_eq!(stats.total_evicted, 0);
    assert_eq!(stats.total_rejected, 0);
}

#[test]
fn zero_capacity_pool_is_full_and_critical_when_holding() {
    let pool = Pool::new(0);
    assert!(pool.is_full());
    assert_eq!(pool.pressure(), PoolPressure::Low);
}

#[test]
fn pressure_default_is_low() {
    assert_eq!(PoolPressure::default(), PoolPressure::Low);
}

#[test]
fn sorted_by_density_ties_keep_arrival_order() {
    let mut pool = Pool::new(100);
    pool.insert(make_tx(5, 21_000, 10));
    pool.insert(make_tx(6, 21_000, 30));
    pool.insert(make_tx(7, 21_000, 10));
    let ids: Vec<u64> = pool.sorted_by_density().iter().map(|t| t.id).collect();
    assert_eq!(ids, vec![6, 5, 7]);
}

#[test]
fn accepted_insert_is_found_and_removal_forgets_it() {
    let mut pool = Pool::new(2);
    assert!(pool.insert(make_tx(1, 21_000, 5)).is_none());
    assert!(pool.insert(make_tx(2, 21_000, 9)).is_none());
    // Full: a better transaction evicts the lowest fee and is found by its id.
    assert!(pool.insert(make_tx(3, 30_000, 20)).is_none());
    assert_eq!(pool.get(3).map(|t| t.priority_fee_gwei), Some(20));
    assert!(pool.get(1).is_none());
    // The same id replaces the held transaction.
    assert!(pool.insert(make_tx(3, 40_000, 25)).is_none());
    assert_eq!(pool.get(3).map(|t| t.gas_limit), Some(40_000));
    assert_eq!(pool.remove(3).map(|t| t.id), Some(3));
    assert!(pool.get(3).is_none());
    assert!(!pool.contains(3));
}

#[test]
fn totals_fit_tells_when_stats_can_sum() {
    let mut pool = Pool::new(10);
    assert!(pool.can_insert());
    assert!(pool.totals_fit());
    assert!(pool.insert(make_tx(1, 21_000, 10)).is_none());
    assert!(pool.totals_fit());
    assert_eq!(pool.stats().total_value, 210_000);

    let mut big_value = Pool::new(10);
    assert!(big_value.insert(make_tx(1, u64::MAX, 2)).is_none());
    assert!(!big_value.totals_fit());

    let mut big_gas = Pool::new(10);
    assert!(big_gas.insert(make_tx(1, u64::MAX, 0)).is_none());
    assert!(big_gas.insert(make_tx(2, 1, 0)).is_none());
    assert!(!big_gas.totals_fit());
}
