use blockpack::nonce::{NonceError, NonceTracker};
use blockpack::tx::{Address, Tx, TxId};

fn make_tx(id: TxId, sender: Address, nonce: u64, fee: u64) -> Tx {
    Tx::with_sender(id, sender, nonce, 21_000, fee)
}

#[test]
fn test_add_and_get_executable() {
    let mut tracker = NonceTracker::new();

    // Add txs in order
    tracker.add_tx(make_tx(1, 100, 0, 10)).unwrap();
    tracker.add_tx(make_tx(2, 100, 1, 20)).unwrap();
    tracker.add_tx(make_tx(3, 100, 2, 15)).unwrap();

    let executable = tracker.get_executable(100);
    assert_eq!(executable.len(), 3);
    assert_eq!(executable[0].nonce, 0);
    assert_eq!(executable[1].nonce, 1);
    assert_eq!(executable[2].nonce, 2);
}

#[test]
fn test_nonce_gap() {
    let mut tracker = NonceTracker::new();

    // Add tx with nonce 0 and 2 (gap at 1)
    tracker.add_tx(make_tx(1, 100, 0, 10)).unwrap();
    tracker.add_tx(make_tx(2, 100, 2, 20)).unwrap(); // Gap!

    let executable = tracker.get_executable(100);
    assert_eq!(executable.len(), 1); // Only nonce 0

    // Fill the gap
    tracker.add_tx(make_tx(3, 100, 1, 15)).unwrap();

    let executable = tracker.get_executable(100);
    assert_eq!(executable.len(), 3); // All now executable
}

#[test]
fn test_nonce_too_low() {
    let mut tracker = NonceTracker::new();
    tracker.set_confirmed_nonce(100, 5);

    let result = tracker.add_tx(make_tx(1, 100, 3, 10));
    assert!(matches!(result, Err(NonceError::NonceTooLow { .. })));
}

#[test]
fn test_replacement() {
    let mut tracker = NonceTracker::new();

    tracker.add_tx(make_tx(1, 100, 0, 10)).unwrap();

    // Replace with higher fee
    tracker.add_tx(make_tx(2, 100, 0, 20)).unwrap();

    let executable = tracker.get_executable(100);
    assert_eq!(executable.len(), 1);
    assert_eq!(executable[0].id, 2);
    assert_eq!(executable[0].priority_fee_gwei, 20);
}

#[test]
fn test_replacement_underpriced() {
    let mut tracker = NonceTracker::new();

    tracker.add_tx(make_tx(1, 100, 0, 20)).unwrap();

    // Try to replace with lower fee
    let result = tracker.add_tx(make_tx(2, 100, 0, 10));
    assert!(matches!(result, Err(NonceError::ReplacementUnderpriced { .. })));
}

#[test]
fn test_mark_included() {
    let mut tracker = NonceTracker::new();

    let tx = make_tx(1, 100, 0, 10);
    tracker.add_tx(tx.clone()).unwrap();

    tracker.mark_included(&tx);

    assert_eq!(tracker.confirmed_nonce(100), 1);
    assert_eq!(tracker.pending_count(100), 0);
}

#[test]
fn test_multiple_senders() {
    let mut tracker = NonceTracker::new();

    // Sender 100
    tracker.add_tx(make_tx(1, 100, 0, 10)).unwrap();
    tracker.add_tx(make_tx(2, 100, 1, 20)).unwrap();

    // Sender 200
    tracker.add_tx(make_tx(3, 200, 0, 30)).unwrap();

    let all_executable = tracker.get_all_executable();
    assert_eq!(all_executable.len(), 3);
}

#[test]
fn test_executable_sorted() {
    let mut tracker = NonceTracker::new();

    tracker.add_tx(make_tx(1, 100, 0, 10)).unwrap();
    tracker.add_tx(make_tx(2, 200, 0, 30)).unwrap();
    tracker.add_tx(make_tx(3, 300, 0, 20)).unwrap();

    let sorted = tracker.get_executable_sorted();
    assert_eq!(sorted[0].priority_fee_gwei, 30);
    assert_eq!(sorted[1].priority_fee_gwei, 20);
    assert_eq!(sorted[2].priority_fee_gwei, 10);
}

#[test]
fn test_is_executable() {
    let mut tracker = NonceTracker::new();

    let tx0 = make_tx(1, 100, 0, 10);
    let tx1 = make_tx(2, 100, 1, 20);
    let tx3 = make_tx(3, 100, 3, 30); // Gap at 2

    tracker.add_tx(tx0.clone()).unwrap();
    tracker.add_tx(tx1.clone()).unwrap();
    tracker.add_tx(tx3.clone()).unwrap();

    assert!(tracker.is_executable(&tx0));
    assert!(tracker.is_executable(&tx1));
    assert!(!tracker.is_executable(&tx3)); // Not executable due to gap
}

#[test]
fn test_get_queued() {
    let mut tracker = NonceTracker::new();

    tracker.add_tx(make_tx(1, 100, 0, 10)).unwrap();
    tracker.add_tx(make_tx(2, 100, 2, 20)).unwrap(); // Gap at 1
    tracker.add_tx(make_tx(3, 100, 3, 30)).unwrap();

    let queued = tracker.get_queued(100);
    assert_eq!(queued.len(), 2); // Nonces 2 and 3 are queued
}

#[test]
fn nonce_errors_carry_values() {
    let mut tracker = NonceTracker::new();
    tracker.set_confirmed_nonce(100, 5);
    assert_eq!(
        tracker.add_tx(make_tx(1, 100, 3, 10)),
        Err(NonceError::NonceTooLow { got: 3, expected: 5 })
    );
    tracker.add_tx(make_tx(2, 100, 5, 20)).unwrap();
    assert_eq!(
        tracker.add_tx(make_tx(3, 100, 5, 20)),
        Err(NonceError::ReplacementUnderpriced { existing_fee: 20, new_fee: 20 })
    );
}

#[test]
fn next_nonce_follows_gapless_run() {
    let mut tracker = NonceTracker::new();
    tracker.set_confirmed_nonce(7, 2);
    assert_eq!(tracker.next_nonce(7), 2);
    tracker.add_tx(make_tx(1, 7, 2, 10)).unwrap();
    tracker.add_tx(make_tx(2, 7, 3, 10)).unwrap();
    tracker.add_tx(make_tx(3, 7, 5, 10)).unwrap();
    assert_eq!(tracker.next_nonce(7), 2);
    assert_eq!(tracker.total_pending(), 3);
    assert_eq!(tracker.remove_tx(7, 3).map(|t| t.id), Some(2));
    assert_eq!(tracker.get_executable(7).len(), 1);
    tracker.clear_address(7);
    assert_eq!(tracker.pending_count(7), 0);
    assert_eq!(tracker.confirmed_nonce(7), 2);
    tracker.add_tx(make_tx(4, 8, 0, 10)).unwrap();
    tracker.clear();
    assert_eq!(tracker.total_pending(), 0);
}

#[test]
fn removed_nonce_is_no_longer_queued() {
    let mut tracker = NonceTracker::new();
    tracker.add_tx(make_tx(1, 7, 0, 10)).unwrap();
    tracker.add_tx(make_tx(2, 7, 1, 10)).unwrap();
    tracker.add_tx(make_tx(3, 7, 2, 10)).unwrap();
    assert_eq!(tracker.remove_tx(7, 1).map(|t| t.id), Some(2));
    assert!(tracker.remove_tx(7, 1).is_none());
    let queued: Vec<u64> = tracker.get_queued(7).iter().map(|t| t.nonce).collect();
    assert_eq!(queued, vec![2]);
    // The gap now stops the executable run after nonce 0.
    assert_eq!(tracker.get_executable(7).len(), 1);
}

#[test]
fn executable_and_queued_split_the_queue() {
    let mut tracker = NonceTracker::new();
    for (id, nonce) in [(1u64, 0u64), (2, 1), (3, 3), (4, 4)] {
        tracker.add_tx(make_tx(id, 9, nonce, 10)).unwrap();
    }
    let ex = tracker.get_executable(9);
    let queued = tracker.get_queued(9);
    assert_eq!(ex.len() + queued.len(), tracker.pending_count(9));
    assert!(ex.iter().all(|t| tracker.is_executable(t)));
    assert!(queued.iter().all(|t| !tracker.is_executable(t)));
    // Raising the confirmed nonce drops what lies below it.
    tracker.set_confirmed_nonce(9, 2);
    assert_eq!(tracker.pending_count(9), 2);
}
