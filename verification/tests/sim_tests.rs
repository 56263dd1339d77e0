use blockpack::sim::{schedule_seals, simulate, SimEvent, SimRun, SimulationResult, MonteCarloResult};
use blockpack::time::{EventQueue, TimedEvent};
use blockpack::tx::Tx;

#[test]
fn seals_are_scheduled_every_block_time() {
    let mut q: EventQueue<SimEvent> = EventQueue::new();
    schedule_seals(&mut q, 3, 10);
    let times: Vec<u64> = q.due_until(u64::MAX).iter().map(|e| e.time).collect();
    assert_eq!(times, vec![3, 6, 9]);
}

#[test]
fn simulate_builds_blocks_at_seals() {
    let mut q = EventQueue::new();
    q.schedule(1, SimEvent::TxArrival(Tx::new(1, 60_000, 10)));
    q.schedule(2, SimEvent::TxArrival(Tx::new(2, 60_000, 5)));
    q.schedule(3, SimEvent::TxArrival(Tx::new(3, 30_000, 7)));
    schedule_seals(&mut q, 5, 10);
    q.schedule(6, SimEvent::TxArrival(Tx::new(4, 10_000, 9)));
    q.schedule(10, SimEvent::End);
    q.schedule(11, SimEvent::TxArrival(Tx::new(5, 10_000, 9)));
    let o = simulate(100_000, 1, q);
    assert_eq!(o.blocks.len(), 2);
    assert_eq!(o.blocks[0].number, 1);
    assert_eq!(o.blocks[0].tx_count(), 2); // 1 and 3; 2 is rejected
    assert_eq!(o.blocks[1].number, 2);
    assert_eq!(o.blocks[1].tx_count(), 1);
    assert_eq!(o.txs_included, 3);
    assert_eq!(o.pending_txs.iter().map(|t| t.id).collect::<Vec<_>>(), vec![2]);
    assert_eq!(o.block_stats[0].seal_time, 5);
    assert_eq!(o.block_stats[0].incremental_stats.txs_received, 3);
    assert_eq!(o.block_stats[1].seal_time, 10);
}

#[test]
fn sim_run_handles_single_events() {
    let mut run = SimRun::new(50_000, 4);
    assert!(run.handle(TimedEvent::new(2, SimEvent::TxArrival(Tx::new(1, 60_000, 10)))));
    assert!(run.handle(TimedEvent::new(1, SimEvent::BlockSeal)));
    assert!(!run.handle(TimedEvent::new(3, SimEvent::End)));
    let o = run.finish();
    // Too large for the block: rejected, left pending; the empty candidate is sealed.
    assert_eq!(o.pending_txs.len(), 1);
    assert_eq!(o.blocks.len(), 1);
    assert_eq!(o.blocks[0].number, 4);
    assert_eq!(o.block_stats[0].seal_time, 2);
}

#[test]
fn simulation_result_totals() {
    let mut q = EventQueue::new();
    q.schedule(1, SimEvent::TxArrival(Tx::new(1, 21_000, 10)));
    q.schedule(2, SimEvent::BlockSeal);
    q.schedule(3, SimEvent::TxArrival(Tx::new(2, 30_000, 20)));
    q.schedule(4, SimEvent::End);
    let o = simulate(100_000, 1, q);
    let result = SimulationResult {
        blocks: o.blocks,
        pending_txs: o.pending_txs,
        txs_generated: 2,
        txs_included: o.txs_included,
        sim_duration: 4,
        real_duration: 1,
        block_stats: o.block_stats,
    };
    assert_eq!(result.total_value(), 21_000 * 10 + 30_000 * 20);
    assert_eq!(result.total_gas(), 51_000);
    let mc = MonteCarloResult { results: vec![result] };
    assert_eq!(mc.iterations(), 1);
}
