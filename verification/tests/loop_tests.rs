use blockpack::builder::UpdateResult;
use blockpack::builder_loop::{
    build_from_batch, build_from_batch_at, BuilderCommand, BuilderEvent, BuilderLoop, BuilderLoopConfig, LoopInput, LoopStats, PollingBuilder,
};
use blockpack::tx::Tx;
use std::time::Duration;

fn make_tx(id: u64, gas: u64, fee: u64) -> Tx {
    Tx::new(id, gas, fee)
}

fn nanos(d: Duration) -> u64 {
    d.as_nanos() as u64
}

#[test]
fn test_polling_builder() {
    let config = BuilderLoopConfig {
        block_gas_limit: 100_000,
        block_time: nanos(Duration::from_millis(100)),
        start_block: 1,
    };

    let mut builder = PollingBuilder::new(config);

    builder.process_tx(make_tx(1, 21_000, 50));
    builder.process_tx(make_tx(2, 21_000, 60));

    assert!(builder.candidate().is_some());
    assert_eq!(builder.candidate().unwrap().tx_count(), 2);

    let block = builder.force_seal().unwrap();
    assert_eq!(block.tx_count(), 2);
    assert_eq!(builder.stats().blocks_built, 1);
}

#[test]
fn test_build_from_batch() {
    let txs = vec![make_tx(1, 21_000, 50), make_tx(2, 21_000, 60), make_tx(3, 21_000, 70)];

    let blocks = build_from_batch(txs, 100_000, nanos(Duration::from_secs(1000)));

    // With long block time, all should be in one block
    assert_eq!(blocks.len(), 1);
    assert_eq!(blocks[0].tx_count(), 3);
}

#[test]
fn batch_at_seals_where_the_readings_say() {
    let txs = vec![make_tx(1, 21_000, 50), make_tx(2, 21_000, 60), make_tx(3, 21_000, 70)];
    // The first reading comes before any candidate: sealing then yields nothing.
    let blocks = build_from_batch_at(txs, 100_000, 5, &vec![9, 5, 4]);
    assert_eq!(blocks.len(), 2);
    assert_eq!(blocks[0].number, 1);
    assert_eq!(blocks[0].tx_count(), 1);
    assert_eq!(blocks[0].transactions[0].id, 1);
    assert_eq!(blocks[1].number, 2);
    assert_eq!(blocks[1].tx_count(), 2);
    assert_eq!(blocks[1].transactions[1].id, 3);
}

#[test]
fn batch_at_without_due_readings_builds_one_block() {
    let txs = vec![make_tx(1, 21_000, 50), make_tx(2, 21_000, 60)];
    let blocks = build_from_batch_at(txs, 100_000, 5, &vec![0, 4]);
    assert_eq!(blocks.len(), 1);
    assert_eq!(blocks[0].tx_count(), 2);
    assert_eq!(blocks[0].total_value, 21_000 * 50 + 21_000 * 60);
}

#[test]
fn polling_builder_seals_only_when_due() {
    let config = BuilderLoopConfig { block_gas_limit: 100_000, block_time: 1_000, start_block: 3 };
    let mut builder = PollingBuilder::new(config);
    builder.process_tx(make_tx(1, 21_000, 50));
    assert!(builder.maybe_seal_at(999).is_none());
    assert_eq!(builder.time_until_seal_at(400), 600);
    assert_eq!(builder.time_until_seal_at(4_000), 0);
    let block = builder.maybe_seal_at(1_000).unwrap();
    assert_eq!(block.number, 3);
    let stats = builder.stats();
    assert_eq!(stats.blocks_built, 1);
    assert_eq!(stats.total_txs_received, 1);
    assert_eq!(stats.total_txs_included, 1);
    assert_eq!(stats.total_value_extracted, 21_000 * 50);
    assert_eq!(stats.total_gas_used, 21_000);
    assert!(builder.force_seal().is_none());
}

#[test]
fn builder_loop_steps() {
    let config = BuilderLoopConfig { block_gas_limit: 100_000, block_time: 10, start_block: 1 };
    let mut core = BuilderLoop::new(&config);
    let input = LoopInput::Tx(make_tx(1, 21_000, 50));
    assert!(core.check(&input));
    let step = core.step(input, 0);
    assert!(!step.stop && !step.restart_block_timer);
    match &step.events[..] {
        [BuilderEvent::TxProcessed { tx_id, result, block_value, block_gas }] => {
            assert_eq!((*tx_id, *result, *block_value, *block_gas), (1, UpdateResult::Added, 1_050_000, 21_000));
        }
        _ => panic!("expected one TxProcessed event"),
    }
    let step = core.step(LoopInput::Timeout, 3);
    assert!(step.events.is_empty());
    let step = core.step(LoopInput::Command(BuilderCommand::Shutdown), 5);
    assert!(step.stop);
    assert_eq!(step.events.len(), 2);
    match &step.events[0] {
        BuilderEvent::BlockSealed { block, stats, build_duration } => {
            assert_eq!(block.tx_count(), 1);
            assert_eq!(stats.txs_received, 0);
            assert_eq!(*build_duration, 5);
        }
        _ => panic!("expected BlockSealed"),
    }
    assert!(matches!(step.events[1], BuilderEvent::Shutdown));
    let stats = core.finish(42);
    assert_eq!(stats.blocks_built, 1);
    assert_eq!(stats.total_txs_received, 1);
    assert_eq!(stats.run_duration, 42);
}

#[test]
fn builder_loop_channel_close_seals_and_stops() {
    let mut core = BuilderLoop::new(&BuilderLoopConfig::default());
    core.step(LoopInput::Tx(make_tx(1, 21_000, 50)), 0);
    core.step(LoopInput::Tx(make_tx(2, 21_000, 60)), 0);
    let step = core.step(LoopInput::TxChannelClosed, 9);
    assert!(step.stop);
    assert_eq!(step.events.len(), 1);
    let stats = core.finish(0);
    assert_eq!(stats.total_txs_received, 2);
    assert_eq!(stats.blocks_built, 1);
}

#[test]
fn block_time_up_without_candidate_only_restarts() {
    let mut core = BuilderLoop::new(&BuilderLoopConfig::default());
    let step = core.step(LoopInput::BlockTimeUp, 0);
    assert!(step.restart_block_timer);
    assert!(step.events.is_empty());
    assert!(!step.stop);
}

#[test]
fn loop_config_default_and_stats_default() {
    let config = BuilderLoopConfig::default();
    assert_eq!(config.block_gas_limit, 30_000_000);
    assert_eq!(config.block_time, nanos(Duration::from_secs(12)));
    assert_eq!(config.start_block, 1);
    let stats = LoopStats::default();
    assert_eq!(stats.blocks_built, 0);
    assert_eq!(stats.run_duration, 0);
}

#[test]
fn polling_with_zero_block_time_always_seals() {
    let config = BuilderLoopConfig { block_gas_limit: 100_000, block_time: 0, start_block: 5 };
    let mut builder = PollingBuilder::new(config);
    assert!(builder.maybe_seal().is_none());
    builder.process_tx(make_tx(1, 21_000, 50));
    let block = builder.maybe_seal().expect("a zero block time seals at once");
    assert_eq!(block.number, 5);
    assert_eq!(block.tx_count(), 1);
    assert_eq!(builder.time_until_seal(), 0);
}

#[test]
fn batch_at_sums_each_block_on_its_own() {
    // Together the two are worth more than a u64 holds; a seal parts them.
    let fee = u64::MAX / 15;
    let txs = vec![make_tx(1, 10, fee), make_tx(2, 10, fee)];
    let blocks = build_from_batch_at(txs, 100, 5, &vec![0, 10]);
    assert_eq!(blocks.len(), 2);
    assert_eq!(blocks[0].transactions[0].id, 1);
    assert_eq!(blocks[1].transactions[0].id, 2);
    assert_eq!(blocks[0].total_value, 10 * fee);
    assert_eq!(blocks[1].total_value, 10 * fee);
}
