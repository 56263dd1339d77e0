use blockpack::builder::{greedy_build, Builder, UpdateResult};
use blockpack::pool::Pool;
use blockpack::tx::{Tx, TxId};

fn make_tx(id: TxId, gas: u64, fee: u64) -> Tx {
    Tx::new(id, gas, fee)
}

fn setup_pool() -> Pool {
    let mut pool = Pool::new(100);
    pool.insert(make_tx(1, 21_000, 50));
    pool.insert(make_tx(2, 100_000, 30));
    pool.insert(make_tx(3, 250_000, 10));
    pool.insert(make_tx(4, 21_000, 100));
    pool.insert(make_tx(5, 500_000, 5));
    pool
}

#[test]
fn test_process_tx_add() {
    let mut builder = Builder::new(100_000);

    let result = builder.process_tx(make_tx(1, 21_000, 50));
    assert_eq!(result, UpdateResult::Added);

    let candidate = builder.candidate().unwrap();
    assert_eq!(candidate.tx_count(), 1);
    assert_eq!(candidate.gas_used, 21_000);
}

#[test]
fn test_process_tx_duplicate() {
    let mut builder = Builder::new(100_000);

    builder.process_tx(make_tx(1, 21_000, 50));
    let result = builder.process_tx(make_tx(1, 21_000, 100));

    assert_eq!(result, UpdateResult::Duplicate);
    assert_eq!(builder.candidate().unwrap().tx_count(), 1);
}

#[test]
fn test_process_tx_replace_better() {
    let mut builder = Builder::new(50_000);

    builder.process_tx(make_tx(1, 25_000, 10));
    builder.process_tx(make_tx(2, 25_000, 20));

    let result = builder.process_tx(make_tx(3, 25_000, 50));

    assert!(matches!(result, UpdateResult::Replaced(1)));

    let candidate = builder.candidate().unwrap();
    assert_eq!(candidate.tx_count(), 2);
    assert!(!candidate.transactions.iter().any(|t| t.id == 1));
    assert!(candidate.transactions.iter().any(|t| t.id == 3));
}

#[test]
fn test_process_tx_reject_worse() {
    let mut builder = Builder::new(50_000);

    builder.process_tx(make_tx(1, 25_000, 50));
    builder.process_tx(make_tx(2, 25_000, 40));

    let result = builder.process_tx(make_tx(3, 25_000, 30));

    assert_eq!(result, UpdateResult::Rejected);
    assert_eq!(builder.candidate().unwrap().tx_count(), 2);
}

#[test]
fn test_seal_returns_block() {
    let mut builder = Builder::new(100_000);

    builder.process_tx(make_tx(1, 21_000, 50));
    builder.process_tx(make_tx(2, 21_000, 60));

    let block = builder.seal();
    assert!(block.is_some());

    let block = block.unwrap();
    assert_eq!(block.number, 1);
    assert_eq!(block.tx_count(), 2);

    assert_eq!(builder.next_block_number(), 2);
    assert!(builder.candidate().is_none());
}

#[test]
fn test_incremental_stats() {
    let mut builder = Builder::new(50_000);

    builder.process_tx(make_tx(1, 20_000, 10));
    builder.process_tx(make_tx(2, 20_000, 20));
    builder.process_tx(make_tx(1, 20_000, 30)); // Duplicate
    builder.process_tx(make_tx(3, 20_000, 50)); // Replace
    builder.process_tx(make_tx(4, 20_000, 5)); // Rejected

    let stats = builder.stats();
    assert_eq!(stats.txs_received, 5);
    assert_eq!(stats.txs_added, 2);
    assert_eq!(stats.txs_duplicate, 1);
    assert_eq!(stats.txs_replaced, 1);
    assert_eq!(stats.txs_rejected, 1);
}

#[test]
fn test_greedy_build_all_fit() {
    let pool = setup_pool();
    let mut builder = Builder::new(30_000_000);

    let result = builder.build_greedy(&pool);

    assert_eq!(result.considered, 5);
    assert_eq!(result.included.len(), 5);
    assert_eq!(result.skipped, 0);
}

#[test]
fn test_eip1559_insufficient_fee() {
    let mut builder = Builder::new(100_000);
    builder.set_base_fee(50);

    // max_fee = 40, can't afford base_fee = 50
    let tx = Tx::new_eip1559(1, 21_000, 10, 40);
    let result = builder.process_tx(tx);

    assert_eq!(result, UpdateResult::InsufficientFee);
}

#[test]
fn test_eip1559_effective_value() {
    let mut builder = Builder::new(100_000);
    builder.set_base_fee(30);

    // max_fee = 50, priority = 25, base = 30
    // effective = min(25, 50-30) = min(25, 20) = 20
    let tx = Tx::new_eip1559(1, 21_000, 25, 50);
    let result = builder.process_tx(tx);

    assert_eq!(result, UpdateResult::Added);
}

#[test]
fn test_multi_replace_reports_count() {
    let mut builder = Builder::new(100_000);

    // Fill with small txs
    builder.process_tx(make_tx(1, 30_000, 10));
    builder.process_tx(make_tx(2, 30_000, 15));
    builder.process_tx(make_tx(3, 30_000, 20));

    // Add large tx that needs multi-eviction
    let result = builder.process_tx(make_tx(4, 70_000, 50));

    assert!(matches!(result, UpdateResult::ReplacedMultiple(_)));
}

#[test]
fn test_block_never_exceeds_gas_limit() {
    let mut builder = Builder::new(200_000);

    let stream = vec![
        make_tx(1, 50_000, 10),
        make_tx(2, 60_000, 12),
        make_tx(3, 40_000, 15),
        make_tx(4, 50_000, 8),
        make_tx(5, 45_000, 25),
        make_tx(6, 55_000, 30),
        make_tx(7, 70_000, 35),
        make_tx(8, 30_000, 20),
        make_tx(9, 80_000, 40),
        make_tx(10, 50_000, 5),
    ];

    for tx in stream {
        builder.process_tx(tx);
        let candidate = builder.candidate().unwrap();
        assert!(
            candidate.gas_used <= candidate.gas_limit,
            "Block gas {} exceeded limit {}",
            candidate.gas_used,
            candidate.gas_limit
        );
    }
}

#[test]
fn test_stats_reset_on_seal() {
    let mut builder = Builder::new(100_000);

    builder.process_tx(make_tx(1, 21_000, 50));
    assert_eq!(builder.stats().txs_received, 1);

    builder.seal();
    assert_eq!(builder.stats().txs_received, 0);
}

#[test]
fn test_base_fee_getter_setter() {
    let mut builder = Builder::new(100_000);

    assert_eq!(builder.base_fee(), 0);
    builder.set_base_fee(25);
    assert_eq!(builder.base_fee(), 25);
}

#[test]
fn replacement_raises_value() {
    // Evicting the two cheapest (fees 10 and 15) for one worth more.
    let mut builder = Builder::new(100_000);
    builder.process_tx(make_tx(1, 30_000, 10));
    builder.process_tx(make_tx(2, 30_000, 15));
    builder.process_tx(make_tx(3, 30_000, 20));
    let before = builder.candidate().unwrap().total_value;
    let result = builder.process_tx(make_tx(4, 70_000, 50));
    assert_eq!(result, UpdateResult::ReplacedMultiple(2));
    let after = builder.candidate().unwrap().total_value;
    assert!(after > before);
    assert_eq!(after, 30_000 * 20 + 70_000 * 50);
}

#[test]
fn replacement_refused_when_not_worth_more() {
    // The newcomer pays more per gas than the cheapest but is worth less than
    // what it would have to evict.
    let mut builder = Builder::new(60_000);
    builder.process_tx(make_tx(1, 30_000, 10));
    builder.process_tx(make_tx(2, 30_000, 10));
    let result = builder.process_tx(make_tx(3, 60_000, 9));
    assert_eq!(result, UpdateResult::Rejected);
    let result = builder.process_tx(make_tx(4, 40_000, 12));
    assert_eq!(result, UpdateResult::Rejected);
    assert_eq!(builder.candidate().unwrap().tx_count(), 2);
}

#[test]
fn seal_without_candidate_keeps_number() {
    let mut builder = Builder::with_start_block(100_000, 7);
    assert!(builder.seal().is_none());
    assert_eq!(builder.next_block_number(), 7);
    assert_eq!(builder.gas_limit(), 100_000);
}

#[test]
fn greedy_build_skips_what_does_not_fit() {
    let pool = setup_pool();
    // Highest fee first: 4 (21k), 1 (21k), 2 (100k), 3 (250k), 5 (500k).
    let result = greedy_build(&pool, 9, 150_000);
    assert_eq!(result.block.number, 9);
    assert_eq!(result.included, vec![4, 1, 2]);
    assert_eq!(result.considered, 5);
    assert_eq!(result.skipped, 2);
    assert_eq!(result.block.gas_used, 142_000);
}

#[test]
fn processing_never_lowers_candidate_value() {
    let mut builder = Builder::new(100_000);
    let stream = [
        make_tx(1, 60_000, 10),
        make_tx(2, 30_000, 5),
        make_tx(3, 50_000, 3),
        make_tx(4, 50_000, 40),
        make_tx(5, 90_000, 1),
        make_tx(6, 20_000, 50),
        make_tx(4, 10_000, 99),
    ];
    let mut last = 0u64;
    for tx in stream {
        builder.process_tx(tx);
        let value = builder.candidate().map(|b| b.total_value).unwrap_or(0);
        assert!(value >= last, "value fell from {} to {}", last, value);
        let gas = builder.candidate().map(|b| b.gas_used).unwrap_or(0);
        assert!(gas <= 100_000);
        last = value;
    }
    assert_eq!(last, 50_000 * 40 + 20_000 * 50);
}

#[test]
fn value_bound_only_for_transactions_that_may_be_taken() {
    let mut builder = Builder::new(100_000);
    builder.process_tx(make_tx(1, 21_000, 10));
    // A duplicate id is refused without adding its value.
    let huge = make_tx(1, 30_000, u64::MAX / 2);
    assert!(builder.can_process_tx(&huge));
    assert_eq!(builder.process_tx(huge), UpdateResult::Duplicate);
    // A new id of that value could overflow the candidate's value.
    let huge_new = make_tx(2, 30_000, u64::MAX / 2);
    assert!(!builder.can_process_tx(&huge_new));
}

#[test]
fn greedy_build_sums_only_what_it_packs() {
    let mut pool = Pool::new(10);
    // Worth more than a u64 holds, but it never fits in the block.
    pool.insert(make_tx(1, u64::MAX, 2));
    pool.insert(make_tx(2, 21_000, 10));
    let result = greedy_build(&pool, 1, 100_000);
    assert_eq!(result.included, vec![2]);
    assert_eq!(result.skipped, 1);
    assert_eq!(result.block.total_value, 210_000);
}

#[test]
fn process_tx_results_follow_the_candidate() {
    let mut builder = Builder::new(100_000);
    builder.set_base_fee(5);
    // Cannot pay the base fee.
    let mut cheap = make_tx(1, 21_000, 10);
    cheap.max_fee_gwei = Some(3);
    assert_eq!(builder.process_tx(cheap), UpdateResult::InsufficientFee);
    assert!(builder.candidate().is_none());
    assert_eq!(builder.process_tx(make_tx(2, 60_000, 10)), UpdateResult::Added);
    assert_eq!(builder.process_tx(make_tx(2, 10_000, 90)), UpdateResult::Duplicate);
    // Does not fit and pays less: refused, the candidate stays.
    assert_eq!(builder.process_tx(make_tx(3, 50_000, 5)), UpdateResult::Rejected);
    assert_eq!(builder.candidate().unwrap().transactions.len(), 1);
    // Pays more and is worth more: the lowest one leaves.
    assert_eq!(builder.process_tx(make_tx(4, 50_000, 20)), UpdateResult::Replaced(2));
    let ids: Vec<TxId> = builder.candidate().unwrap().transactions.iter().map(|t| t.id).collect();
    assert_eq!(ids, vec![4]);
}

#[test]
fn greedy_build_fees_fall_and_only_misfits_are_left_out() {
    let pool = setup_pool();
    let result = greedy_build(&pool, 9, 150_000);
    let fees: Vec<u64> = result.block.transactions.iter().map(|t| t.priority_fee_gwei).collect();
    for w in fees.windows(2) {
        assert!(w[0] >= w[1]);
    }
    let left = result.block.remaining_gas();
    for tx in pool.iter() {
        if !result.included.contains(&tx.id) {
            assert!(tx.gas_limit > left);
        }
    }
}
