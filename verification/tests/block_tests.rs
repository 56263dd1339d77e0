use blockpack::block::Block;
use blockpack::tx::Tx;

fn make_tx(id: u64, gas: u64, fee: u64) -> Tx {
    Tx::new(id, gas, fee)
}

#[test]
fn test_new_block() {
    let block = Block::new(1, 30_000_000);
    assert_eq!(block.number, 1);
    assert_eq!(block.gas_limit, 30_000_000);
    assert_eq!(block.gas_used, 0);
    assert_eq!(block.total_value, 0);
    assert_eq!(block.tx_count(), 0);
}

#[test]
fn test_add_tx() {
    let mut block = Block::new(1, 100_000);
    let tx = make_tx(1, 21_000, 10);

    assert!(block.add_tx(tx));
    assert_eq!(block.gas_used, 21_000);
    assert_eq!(block.total_value, 210_000);
    assert_eq!(block.tx_count(), 1);
}

#[test]
fn test_add_tx_no_fit() {
    let mut block = Block::new(1, 20_000);
    let tx = make_tx(1, 21_000, 10);

    assert!(!block.add_tx(tx));
    assert_eq!(block.tx_count(), 0);
}

#[test]
fn test_remove_tx() {
    let mut block = Block::new(1, 100_000);
    block.add_tx(make_tx(1, 21_000, 10));
    block.add_tx(make_tx(2, 30_000, 20));

    let removed = block.remove_tx(1);
    assert!(removed.is_some());
    assert_eq!(removed.unwrap().id, 1);
    assert_eq!(block.gas_used, 30_000);
    assert_eq!(block.tx_count(), 1);
}

#[test]
fn test_worst_tx() {
    let mut block = Block::new(1, 1_000_000);
    block.add_tx(make_tx(1, 21_000, 5)); // density = 5
    block.add_tx(make_tx(2, 21_000, 20)); // density = 20
    block.add_tx(make_tx(3, 21_000, 10)); // density = 10

    let (idx, worst) = block.worst_tx().unwrap();
    assert_eq!(worst.id, 1); // lowest density
    assert_eq!(idx, 0);
}

#[test]
fn block_test_clear() {
    let mut block = Block::new(1, 100_000);
    block.add_tx(make_tx(1, 21_000, 10));
    block.add_tx(make_tx(2, 30_000, 20));

    block.clear();
    assert_eq!(block.tx_count(), 0);
    assert_eq!(block.gas_used, 0);
    assert_eq!(block.total_value, 0);
    assert_eq!(block.number, 1); // Preserved
}

#[test]
fn remaining_gas_and_can_fit() {
    let mut block = Block::new(3, 50_000);
    block.add_tx(make_tx(1, 30_000, 1));
    assert_eq!(block.remaining_gas(), 20_000);
    assert!(block.can_fit(&make_tx(2, 20_000, 1)));
    assert!(!block.can_fit(&make_tx(3, 20_001, 1)));
}

#[test]
fn remove_missing_tx_changes_nothing() {
    let mut block = Block::new(1, 100_000);
    block.add_tx(make_tx(1, 21_000, 10));
    assert!(block.remove_tx(9).is_none());
    assert_eq!(block.tx_count(), 1);
    assert_eq!(block.gas_used, 21_000);
    assert_eq!(block.total_value, 210_000);
}

#[test]
fn worst_tx_of_empty_block_is_none() {
    let block = Block::new(1, 100_000);
    assert!(block.worst_tx().is_none());
}

#[test]
fn worst_tx_ties_pick_first() {
    let mut block = Block::new(1, 1_000_000);
    block.add_tx(make_tx(1, 21_000, 9));
    block.add_tx(make_tx(2, 21_000, 4));
    block.add_tx(make_tx(3, 21_000, 4));
    let (idx, worst) = block.worst_tx().unwrap();
    assert_eq!((idx, worst.id), (1, 2));
}
