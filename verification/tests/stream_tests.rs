use blockpack::stream::GeneratorCore;

#[test]
fn generated_transactions_stay_in_bounds() {
    let mut g = GeneratorCore::new(21_000, 500_000, 1, 200, 10);
    for i in 0..50u64 {
        let tx = g.generate(None);
        assert_eq!(tx.id, 10 + i);
        assert!(tx.gas_limit >= 21_000 && tx.gas_limit <= 500_000);
        assert!(tx.priority_fee_gwei >= 1 && tx.priority_fee_gwei <= 200);
    }
    assert_eq!(g.txs_generated(), 50);
    assert!(g.min_fee_seen() <= g.max_fee_seen());
}

#[test]
fn raw_fees_are_clamped() {
    let mut g = GeneratorCore::new(21_000, 21_000, 5, 50, 1);
    assert_eq!(g.generate(Some(2)).priority_fee_gwei, 5);
    assert_eq!(g.generate(Some(500)).priority_fee_gwei, 50);
    let tx = g.generate(Some(17));
    assert_eq!(tx.priority_fee_gwei, 17);
    assert_eq!(g.total_gas(), 63_000);
    assert_eq!(g.total_value(), 21_000 * (5 + 50 + 17));
    assert_eq!(g.min_fee_seen(), 5);
    assert_eq!(g.max_fee_seen(), 50);
}
