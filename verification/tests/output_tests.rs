use blockpack::block::Block;
use blockpack::output::{block_csv_start, push_decimal, tx_csv_line, OutputFormat, TxRecord};
use blockpack::tx::Tx;

#[test]
fn test_tx_record() {
    let tx = Tx::new(1, 21_000, 50);
    let record = TxRecord::from(&tx);

    assert_eq!(record.id, 1);
    assert_eq!(record.gas_limit, 21_000);
    assert_eq!(record.priority_fee_gwei, 50);
    assert_eq!(record.value, 21_000 * 50);
}

#[test]
fn test_output_format_parsing() {
    assert_eq!(OutputFormat::from_str("json"), Some(OutputFormat::Json));
    assert_eq!(OutputFormat::from_str("JSON"), Some(OutputFormat::Json));
    assert_eq!(OutputFormat::from_str("csv"), Some(OutputFormat::Csv));
    assert_eq!(OutputFormat::from_str("human"), Some(OutputFormat::Human));
    assert_eq!(OutputFormat::from_str("invalid"), None);
}

#[test]
fn output_format_aliases() {
    assert_eq!(OutputFormat::from_str("Text"), Some(OutputFormat::Human));
    assert_eq!(OutputFormat::from_str("PRETTY"), Some(OutputFormat::Human));
    assert_eq!(OutputFormat::from_str("json-compact"), Some(OutputFormat::JsonCompact));
    assert_eq!(OutputFormat::from_str("JsonC"), Some(OutputFormat::JsonCompact));
    assert_eq!(OutputFormat::from_str(""), None);
    assert_eq!(OutputFormat::from_str("jsonx"), None);
}

#[test]
fn tx_record_value_wraps_past_max() {
    let tx = Tx::new(2, u64::MAX, 2);
    assert_eq!(TxRecord::from(&tx).value, u64::MAX.wrapping_mul(2));
}

fn block_with(number: u64, txs: Vec<Tx>) -> Block {
    let mut block = Block::new(number, 30_000_000);
    for tx in txs {
        block.add_tx(tx);
    }
    block
}

#[test]
fn csv_block_lines_start_with_the_integer_fields() {
    let first = block_with(1, vec![Tx::new(1, 21_000, 50)]);
    let second = block_with(2, vec![Tx::new(2, 50_000, 30)]);
    assert_eq!(block_csv_start(&first), b"1,1,21000,30000000,1050000,".to_vec());
    assert_eq!(block_csv_start(&second), b"2,1,50000,30000000,1500000,".to_vec());
}

#[test]
fn csv_transaction_line() {
    let tx = Tx::new(7, 21_000, 3);
    assert_eq!(tx_csv_line(&tx), b"7,21000,3,63000\n".to_vec());
}

#[test]
fn decimal_digits() {
    let mut out = b"x=".to_vec();
    push_decimal(&mut out, 0);
    assert_eq!(out, b"x=0".to_vec());
    let mut out = Vec::new();
    push_decimal(&mut out, 1_234_567_890);
    assert_eq!(out, b"1234567890".to_vec());
    let mut out = Vec::new();
    push_decimal(&mut out, u64::MAX);
    assert_eq!(out, u64::MAX.to_string().into_bytes());
}
