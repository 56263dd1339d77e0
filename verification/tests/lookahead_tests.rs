use blockpack::lookahead::{LookaheadPlanner, PlannedBlock, ScheduledTx, TxPriority};
use blockpack::tx::{Tx, TxId};

fn make_tx(id: TxId, gas: u64, fee: u64) -> Tx {
    Tx::new(id, gas, fee)
}

#[test]
fn test_planned_block() {
    let mut block = PlannedBlock::new(1, 100_000);

    assert!(block.add_tx(make_tx(1, 30_000, 10)));
    assert!(block.add_tx(make_tx(2, 30_000, 20)));

    assert_eq!(block.tx_count(), 2);
    assert_eq!(block.gas_used, 60_000);
    assert_eq!(block.remaining_gas(), 40_000);
    let fullness = block.gas_used as f64 / block.gas_limit as f64 * 100.0;
    assert!((fullness - 60.0).abs() < 0.1);
}

#[test]
fn test_planned_block_remove() {
    let mut block = PlannedBlock::new(1, 100_000);

    block.add_tx(make_tx(1, 30_000, 10));
    block.add_tx(make_tx(2, 30_000, 20));

    let removed = block.remove_tx(1);
    assert!(removed.is_some());
    assert_eq!(block.tx_count(), 1);
    assert_eq!(block.gas_used, 30_000);
}

#[test]
fn test_scheduled_tx_priority() {
    let tx = make_tx(1, 21_000, 10);

    let normal = ScheduledTx::new(tx.clone());
    assert_eq!(normal.priority, TxPriority::Normal);

    let urgent = ScheduledTx::urgent(tx.clone());
    assert_eq!(urgent.priority, TxPriority::Urgent);

    let high = ScheduledTx::with_priority(tx.clone(), TxPriority::High);
    assert_eq!(high.priority, TxPriority::High);
}

#[test]
fn test_scheduled_tx_deadline() {
    let tx = make_tx(1, 21_000, 10);
    let stx = ScheduledTx::with_deadline(tx, 100);

    assert!(!stx.is_expired(99));
    assert!(!stx.is_expired(100));
    assert!(stx.is_expired(101));

    assert!(!stx.is_due(99));
    assert!(stx.is_due(100));
    assert!(stx.is_due(101));
}

#[test]
fn test_lookahead_planner_basic() {
    let mut planner = LookaheadPlanner::new(1, 100_000, 3);

    planner.add_tx(ScheduledTx::new(make_tx(1, 30_000, 10)));
    planner.add_tx(ScheduledTx::new(make_tx(2, 30_000, 20)));
    planner.add_tx(ScheduledTx::new(make_tx(3, 30_000, 30)));

    planner.plan();

    assert_eq!(planner.total_planned_txs(), 3);
    assert_eq!(planner.pending_count(), 0);
}

#[test]
fn test_lookahead_planner_urgent() {
    let mut planner = LookaheadPlanner::new(1, 50_000, 3);

    // Add normal txs that fill first block
    planner.add_tx(ScheduledTx::new(make_tx(1, 30_000, 10)));
    planner.add_tx(ScheduledTx::new(make_tx(2, 30_000, 10)));

    // Add urgent tx - should bump one of the normal txs
    planner.add_tx(ScheduledTx::urgent(make_tx(3, 30_000, 50)));

    planner.plan();

    let first_block = planner.get_next_block();
    assert!(first_block.contains(3)); // Urgent tx should be in first block
}

#[test]
fn test_lookahead_planner_overflow_to_next() {
    let mut planner = LookaheadPlanner::new(1, 50_000, 3);

    // Add more txs than fit in one block
    planner.add_tx(ScheduledTx::new(make_tx(1, 30_000, 30)));
    planner.add_tx(ScheduledTx::new(make_tx(2, 30_000, 20)));
    planner.add_tx(ScheduledTx::new(make_tx(3, 30_000, 10)));

    planner.plan();

    // First block should have tx 1 (highest value density)
    let block1 = planner.get_block_plan(1).unwrap();
    assert!(block1.contains(1));

    // Remaining should spill to block 2
    let block2 = planner.get_block_plan(2).unwrap();
    assert!(block2.tx_count() > 0);
}

#[test]
fn test_lookahead_planner_advance() {
    let mut planner = LookaheadPlanner::new(1, 100_000, 3);

    planner.add_tx(ScheduledTx::new(make_tx(1, 30_000, 10)));
    planner.plan();

    assert_eq!(planner.get_next_block().number, 1);

    let completed = planner.advance();
    assert_eq!(completed.number, 1);
    assert_eq!(planner.get_next_block().number, 2);

    // Should now have blocks 2, 3, 4
    assert!(planner.get_block_plan(2).is_some());
    assert!(planner.get_block_plan(3).is_some());
    assert!(planner.get_block_plan(4).is_some());
    assert!(planner.get_block_plan(1).is_none());
}

#[test]
fn test_lookahead_planner_deadline() {
    let mut planner = LookaheadPlanner::new(1, 100_000, 5);

    // Tx with deadline at block 2 - give it high value so it gets scheduled
    planner.add_tx(ScheduledTx::with_deadline(make_tx(1, 30_000, 50), 2));

    // Add some other txs
    planner.add_tx(ScheduledTx::new(make_tx(2, 40_000, 20)));
    planner.add_tx(ScheduledTx::new(make_tx(3, 40_000, 10)));

    planner.plan();

    // Tx 1 should be in block 1 or 2 (before or at deadline)
    let in_block_1 = planner.get_block_plan(1).unwrap().contains(1);
    let in_block_2 = planner.get_block_plan(2).unwrap().contains(1);
    assert!(in_block_1 || in_block_2, "Tx with deadline should be in block 1 or 2");
}

#[test]
fn test_remove_expired() {
    let mut planner = LookaheadPlanner::new(10, 100_000, 3);

    planner.add_tx(ScheduledTx::with_deadline(make_tx(1, 30_000, 10), 5)); // Expired
    planner.add_tx(ScheduledTx::with_deadline(make_tx(2, 30_000, 20), 15)); // Valid
    planner.add_tx(ScheduledTx::new(make_tx(3, 30_000, 30))); // No deadline

    let removed = planner.remove_expired(10);

    assert_eq!(removed, 1);
    assert_eq!(planner.pending_count(), 2);
}

#[test]
fn plan_places_by_priority_then_fee() {
    let mut planner = LookaheadPlanner::new(1, 50_000, 2);
    planner.add_tx(ScheduledTx::new(make_tx(1, 30_000, 90)));
    planner.add_tx(ScheduledTx::with_priority(make_tx(2, 30_000, 5), TxPriority::High));
    planner.add_tx(ScheduledTx::with_priority(make_tx(3, 30_000, 99), TxPriority::Low));
    planner.plan();
    // High first into block 1, then Normal (fee 90) into block 2, Low left out.
    assert!(planner.get_block_plan(1).unwrap().contains(2));
    assert!(planner.get_block_plan(2).unwrap().contains(1));
    assert_eq!(planner.pending_count(), 1);
    assert_eq!(planner.total_planned_value(), 30_000 * 5 + 30_000 * 90);
}

#[test]
fn urgent_without_room_or_bump_stays_pending() {
    let mut planner = LookaheadPlanner::new(1, 50_000, 3);
    planner.add_tx(ScheduledTx::urgent(make_tx(1, 30_000, 50)));
    planner.add_tx(ScheduledTx::urgent(make_tx(2, 30_000, 40)));
    planner.plan();
    assert!(planner.get_next_block().contains(1));
    assert!(!planner.get_next_block().contains(2));
    assert_eq!(planner.pending_count(), 1);
}

#[test]
fn deadline_before_window_is_never_placed() {
    let mut planner = LookaheadPlanner::new(10, 100_000, 3);
    planner.add_tx(ScheduledTx::with_deadline(make_tx(1, 30_000, 50), 9));
    planner.plan();
    assert_eq!(planner.total_planned_txs(), 0);
    assert_eq!(planner.pending_count(), 1);
    assert_eq!(planner.depth(), 3);
    assert_eq!(planner.start_block(), 10);
    assert_eq!(planner.blocks().len(), 3);
}

#[test]
fn priority_rank_and_default() {
    assert_eq!(TxPriority::default(), TxPriority::Normal);
    assert_eq!(TxPriority::Urgent.rank(), 0);
    assert_eq!(TxPriority::Low.rank(), 3);
    assert!(TxPriority::Urgent < TxPriority::High);
}

#[test]
fn test_lookahead_stats() {
    let mut planner = LookaheadPlanner::new(1, 100_000, 3);

    planner.add_tx(ScheduledTx::new(make_tx(1, 30_000, 10)));
    planner.add_tx(ScheduledTx::new(make_tx(2, 30_000, 20)));
    planner.plan();

    let stats = planner.stats();

    assert_eq!(stats.lookahead_depth, 3);
    assert_eq!(stats.start_block, 1);
    assert_eq!(stats.total_planned_txs, 2);
    assert_eq!(stats.block_stats.len(), 3);
}

#[test]
fn urgent_transaction_is_never_bumped() {
    let mut p = LookaheadPlanner::new(1, 50_000, 1);
    p.add_tx(ScheduledTx::urgent(Tx::new(1, 30_000, 10)));
    p.add_tx(ScheduledTx::with_priority(Tx::new(2, 30_000, 50), TxPriority::High));
    p.plan();
    assert!(p.get_next_block().contains(1));
    assert!(!p.get_next_block().contains(2));
    assert_eq!(p.pending_count(), 1);
}

#[test]
fn can_plan_checks_value_and_urgent_room() {
    let mut p = LookaheadPlanner::new(1, 50_000, 2);
    p.add_tx(ScheduledTx::urgent(Tx::new(1, 30_000, 10)));
    assert!(p.can_plan());
    p.add_tx(ScheduledTx::new(Tx::new(2, 2, u64::MAX)));
    assert!(!p.can_plan());
    let mut empty_window = LookaheadPlanner::new(1, 50_000, 0);
    empty_window.add_tx(ScheduledTx::urgent(Tx::new(3, 10, 1)));
    assert!(!empty_window.can_plan());
    // An urgent transaction already past its deadline needs no block.
    let mut past = LookaheadPlanner::new(5, 50_000, 0);
    let mut late = ScheduledTx::urgent(Tx::new(5, 10, 1));
    late.deadline_block = Some(4);
    past.add_tx(late);
    assert!(past.can_plan());
}

#[test]
fn plan_keeps_every_transaction() {
    let mut p = LookaheadPlanner::new(1, 50_000, 2);
    for id in 1..=6u64 {
        p.add_tx(ScheduledTx::new(Tx::new(id, 30_000, id)));
    }
    p.plan();
    assert_eq!(p.total_planned_txs() + p.pending_count(), 6);
}

#[test]
fn can_advance_needs_a_block_and_room_for_numbers() {
    assert!(LookaheadPlanner::new(1, 30_000_000, 3).can_advance());
    assert!(!LookaheadPlanner::new(1, 30_000_000, 0).can_advance());
    assert!(!LookaheadPlanner::new(u64::MAX - 3, 30_000_000, 3).can_advance());
    assert!(LookaheadPlanner::new(u64::MAX - 4, 30_000_000, 3).can_advance());
}

#[test]
fn stats_fit_for_a_plan_of_small_values() {
    let mut planner = LookaheadPlanner::new(1, 100_000, 2);
    assert!(planner.stats_fit());
    planner.add_tx(ScheduledTx::new(make_tx(1, 21_000, 10)));
    planner.plan();
    assert!(planner.stats_fit());
    assert_eq!(planner.total_planned_value(), 210_000);
    assert_eq!(planner.total_planned_txs(), 1);
}
