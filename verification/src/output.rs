use vstd::prelude::*;
use crate::tx::Tx;
use crate::block::Block;

verus! {

/// A transaction as written out.
#[derive(Debug, Clone, PartialEq, Eq, Structural)]
pub struct TxRecord {
    pub id: u64,
    pub gas_limit: u64,
    pub priority_fee_gwei: u64,
    /// Priority fee times gas, wrapping past `u64::MAX`
    pub value: u64,
}

/// The record of a transaction.
pub open spec fn tx_record(tx: Tx) -> TxRecord {
    TxRecord {
        id: tx.id,
        gas_limit: tx.gas_limit,
        priority_fee_gwei: tx.priority_fee_gwei,
        value: vstd::wrapping::u64_specs::wrapping_mul(tx.gas_limit, tx.priority_fee_gwei),
    }
}

impl<'a> From<&'a Tx> for TxRecord {
    fn from(tx: &'a Tx) -> (r: Self) {
        TxRecord {
            id: tx.id,
            gas_limit: tx.gas_limit,
            priority_fee_gwei: tx.priority_fee_gwei,
            value: tx.gas_limit.wrapping_mul(tx.priority_fee_gwei),
        }
    }
}

impl<'a> vstd::std_specs::convert::FromSpecImpl<&'a Tx> for TxRecord {
    open spec fn obeys_from_spec() -> bool {
        true
    }

    open spec fn from_spec(tx: &'a Tx) -> Self {
        tx_record(*tx)
    }
}

/// The decimal digits of `n`, as ASCII bytes, most significant first.
pub open spec fn decimal(n: nat) -> Seq<u8>
    decreases n,
{
    if n < 10 {
        seq![(48 + n) as u8]
    } else {
        decimal(n / 10).push((48 + n % 10) as u8)
    }
}

/// The numbers written in decimal and separated by commas.
pub open spec fn csv_join(fields: Seq<u64>) -> Seq<u8>
    decreases fields.len(),
{
    if fields.len() == 0 {
        Seq::empty()
    } else if fields.len() == 1 {
        decimal(fields[0] as nat)
    } else {
        csv_join(fields.drop_last()).push(44u8) + decimal(fields.last() as nat)
    }
}

/// The fields of a transaction's CSV line: id, gas limit, priority fee and
/// value (priority fee times gas, wrapping past `u64::MAX`).
pub open spec fn tx_csv_fields(tx: Tx) -> Seq<u64> {
    let r = tx_record(tx);
    seq![r.id, r.gas_limit, r.priority_fee_gwei, r.value]
}

/// The integer fields of a block's CSV line: number, transaction count, gas
/// used, gas limit and total value.
pub open spec fn block_csv_fields(b: Block) -> Seq<u64> {
    seq![b.number, b.transactions@.len() as u64, b.gas_used, b.gas_limit, b.total_value]
}

/// Append the decimal digits of `n`.
pub fn push_decimal(out: &mut Vec<u8>, n: u64)
    ensures
        final(out)@ == old(out)@ + decimal(n as nat),
    decreases n,
{
    if n >= 10 {
        push_decimal(out, n / 10);
    }
    let d: u8 = (n % 10) as u8;
    let c: u8 = 48 + d;
    out.push(c);
    proof {
        assert(decimal(n as nat) == if n < 10 { seq![(48 + n) as u8] } else { decimal((n / 10) as nat).push((48 + n % 10) as u8) });
        if n < 10 {
            assert(old(out)@ + decimal(n as nat) =~= old(out)@.push(c));
        } else {
            assert(old(out)@ + decimal((n / 10) as nat) + seq![c] =~= old(out)@ + decimal(n as nat));
        }
    }
}

/// Append the numbers in decimal, separated by commas.
fn push_csv(out: &mut Vec<u8>, fields: &Vec<u64>)
    ensures
        final(out)@ == old(out)@ + csv_join(fields@),
{
    let n = fields.len();
    let mut i: usize = 0;
    proof {
        assert(fields@.take(0) =~= Seq::<u64>::empty());
        assert(out@ =~= old(out)@ + csv_join(fields@.take(0)));
    }
    while i < n
        invariant
            n == fields@.len(),
            i <= n,
            out@ == old(out)@ + csv_join(fields@.take(i as int)),
        decreases n - i,
    {
        if i > 0 {
            out.push(44u8);
        }
        push_decimal(out, fields[i]);
        proof {
            let t = fields@.take(i as int + 1);
            assert(t.drop_last() =~= fields@.take(i as int));
            assert(t.last() == fields@[i as int]);
            assert(out@ =~= old(out)@ + csv_join(t));
        }
        i = i + 1;
    }
    proof {
        assert(fields@.take(n as int) =~= fields@);
    }
}

/// A transaction's CSV line: its fields, then a line break.
pub fn tx_csv_line(tx: &Tx) -> (line: Vec<u8>)
    ensures
        line@ == csv_join(tx_csv_fields(*tx)).push(10u8),
{
    let r = TxRecord::from(tx);
    let fields: Vec<u64> = vec![r.id, r.gas_limit, r.priority_fee_gwei, r.value];
    let mut line: Vec<u8> = Vec::new();
    push_csv(&mut line, &fields);
    line.push(10u8);
    proof {
        assert(fields@ =~= tx_csv_fields(*tx));
    }
    line
}

/// The start of a block's CSV line: its integer fields, each followed by a
/// comma (the fill percentage, a decimal fraction, comes last).
pub fn block_csv_start(block: &Block) -> (line: Vec<u8>)
    requires
        block.transactions@.len() <= u64::MAX,
    ensures
        line@ == csv_join(block_csv_fields(*block)).push(44u8),
{
    let fields: Vec<u64> = vec![block.number, block.transactions.len() as u64, block.gas_used, block.gas_limit, block.total_value];
    let mut line: Vec<u8> = Vec::new();
    push_csv(&mut line, &fields);
    line.push(44u8);
    proof {
        assert(fields@ =~= block_csv_fields(*block));
    }
    line
}

/// Output format for the command line.
#[derive(Debug, Clone, Copy, PartialEq, Eq, Structural)]
pub enum OutputFormat {
    Human,
    Json,
    JsonCompact,
    Csv,
}

/// Code of a character with ASCII capitals lowered.
pub open spec fn lower_code(c: char) -> u32 {
    if 'A' <= c && c <= 'Z' { (c as u32 + 32) as u32 } else { c as u32 }
}

/// `s` is `t` up to ASCII case (`t` in lower case).
pub open spec fn lower_eq(s: Seq<char>, t: Seq<char>) -> bool {
    s.len() == t.len() && forall|i: int| 0 <= i < s.len() ==> lower_code(#[trigger] s[i]) == t[i] as u32
}

/// The format a name selects, ignoring ASCII case.
pub open spec fn format_named(s: Seq<char>) -> Option<OutputFormat> {
    if lower_eq(s, "human"@) || lower_eq(s, "text"@) || lower_eq(s, "pretty"@) {
        Some(OutputFormat::Human)
    } else if lower_eq(s, "json"@) {
        Some(OutputFormat::Json)
    } else if lower_eq(s, "json-compact"@) || lower_eq(s, "jsonc"@) {
        Some(OutputFormat::JsonCompact)
    } else if lower_eq(s, "csv"@) {
        Some(OutputFormat::Csv)
    } else {
        None
    }
}

/// Whether `s` is `t` up to ASCII case.
fn matches_lower(s: &str, t: &str) -> (b: bool)
    ensures
        b == lower_eq(s@, t@),
{
    let n = s.unicode_len();
    if n != t.unicode_len() {
        return false;
    }
    let mut i: usize = 0;
    while i < n
        invariant
            n == s@.len(),
            n == t@.len(),
            i <= n,
            forall|j: int| 0 <= j < i ==> lower_code(#[trigger] s@[j]) == t@[j] as u32,
        decreases n - i,
    {
        let a = s.get_char(i);
        let b = t.get_char(i);
        let code: u32 = if 'A' <= a && a <= 'Z' { a as u32 + 32 } else { a as u32 };
        if code != b as u32 {
            return false;
        }
        i = i + 1;
    }
    true
}

impl OutputFormat {
    /// The format a name selects: "human", "text" or "pretty", "json",
    /// "json-compact" or "jsonc", "csv", in any case; `None` for other names.
    pub fn from_str(s: &str) -> (r: Option<Self>)
        ensures
            r == format_named(s@),
    {
        if matches_lower(s, "human") || matches_lower(s, "text") || matches_lower(s, "pretty") {
            Some(OutputFormat::Human)
        } else if matches_lower(s, "json") {
            Some(OutputFormat::Json)
        } else if matches_lower(s, "json-compact") || matches_lower(s, "jsonc") {
            Some(OutputFormat::JsonCompact)
        } else if matches_lower(s, "csv") {
            Some(OutputFormat::Csv)
        } else {
            None
        }
    }
}

} // verus!
