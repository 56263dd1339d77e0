use blockpack::tx::Tx;

#[test]
fn test_tx_value() {
    let tx = Tx::new(1, 21_000, 10);
    assert_eq!(tx.value(), 210_000);
}

#[test]
fn test_tx_equality() {
    let tx1 = Tx::new(1, 21_000, 10);
    let tx2 = Tx::new(1, 50_000, 20); // Same ID, different params
    let tx3 = Tx::new(2, 21_000, 10);

    assert_eq!(tx1, tx2); // Same ID = equal
    assert_ne!(tx1, tx3); // Different ID = not equal
}

#[test]
fn test_eip1559_effective_priority_fee() {
    // max_fee = 100, priority = 20, base = 50
    // effective = min(20, 100 - 50) = min(20, 50) = 20
    let tx = Tx::new_eip1559(1, 21_000, 20, 100);
    assert_eq!(tx.effective_priority_fee(50), 20);

    // max_fee = 100, priority = 20, base = 90
    // effective = min(20, 100 - 90) = min(20, 10) = 10
    assert_eq!(tx.effective_priority_fee(90), 10);

    // max_fee = 100, priority = 20, base = 110
    // Can't afford, effective = 0
    assert_eq!(tx.effective_priority_fee(110), 0);
}

#[test]
fn test_can_afford_base_fee() {
    let tx = Tx::new_eip1559(1, 21_000, 20, 100);

    assert!(tx.can_afford_base_fee(50));
    assert!(tx.can_afford_base_fee(100));
    assert!(!tx.can_afford_base_fee(101));
}

#[test]
fn test_legacy_tx_base_fee() {
    let tx = Tx::new(1, 21_000, 50);

    // Legacy tx always returns priority fee regardless of base
    assert_eq!(tx.effective_priority_fee(30), 50);
    assert!(tx.can_afford_base_fee(1000)); // Always true for legacy
}

#[test]
fn test_value_at_base_fee() {
    let tx = Tx::new_eip1559(1, 21_000, 20, 100);

    // At base 50: effective = 20, value = 20 * 21000
    assert_eq!(tx.value_at_base_fee(50), 420_000);

    // At base 90: effective = 10, value = 10 * 21000
    assert_eq!(tx.value_at_base_fee(90), 210_000);
}

#[test]
fn with_sender_keeps_sender_and_nonce() {
    let tx = Tx::with_sender(7, 42, 3, 21_000, 5);
    assert_eq!(tx.id, 7);
    assert_eq!(tx.sender, 42);
    assert_eq!(tx.nonce, 3);
    assert_eq!(tx.gas_limit, 21_000);
    assert_eq!(tx.priority_fee_gwei, 5);
    assert_eq!(tx.max_fee_gwei, None);
}

#[test]
fn eip1559_fee_below_priority_caps_value() {
    // max 30, priority 50, base 0: effective = min(50, 30) = 30
    let tx = Tx::new_eip1559(1, 1_000, 50, 30);
    assert_eq!(tx.effective_priority_fee(0), 30);
    assert_eq!(tx.value_at_base_fee(0), 30_000);
    assert_eq!(tx.value_at_base_fee(40), 0);
}
