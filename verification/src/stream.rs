use vstd::prelude::*;
use rand::Rng;
use rand::rngs::ThreadRng;
use crate::tx::{Tx, TxId};

verus! {

#[verifier::external_type_specification]
#[verifier::external_body]
pub struct ExThreadRng(ThreadRng);

/// A handle to the thread-local random generator (`rand::thread_rng`).
/// Nothing is promised of it beyond its type.
#[verifier::external_body]
fn thread_rng() -> ThreadRng {
    rand::thread_rng()
}

/// A uniformly random integer of the inclusive range `lo..=hi`
/// (`rand::Rng::gen_range`, which panics on an empty range). The value is
/// random: only that it lies in the range is promised.
#[verifier::external_body]
fn gen_range_inclusive(rng: &mut ThreadRng, lo: u64, hi: u64) -> (r: u64)
    requires
        lo <= hi,
    ensures
        lo <= r <= hi,
{
    rng.gen_range(lo..=hi)
}

/// A value clamped into `min..=max`.
pub open spec fn clamped(v: u64, min: u64, max: u64) -> u64 {
    if v < min { min } else if v > max { max } else { v }
}

/// The integer part of a transaction stream generator: it numbers the
/// transactions, draws their gas (and, for uniform fees, their fee) at random
/// within the configured bounds, and keeps running totals.
pub struct GeneratorCore {
    min_gas: u64,
    max_gas: u64,
    min_fee: u64,
    max_fee: u64,
    next_id: TxId,
    rng: ThreadRng,
    txs_generated: u64,
    total_gas: u64,
    total_value: u64,
    min_fee_seen: u64,
    max_fee_seen: u64,
}

impl GeneratorCore {
    /// Least gas of a generated transaction.
    pub closed spec fn spec_min_gas(&self) -> u64 { self.min_gas }

    /// Most gas of a generated transaction.
    pub closed spec fn spec_max_gas(&self) -> u64 { self.max_gas }

    /// Least fee of a generated transaction.
    pub closed spec fn spec_min_fee(&self) -> u64 { self.min_fee }

    /// Most fee of a generated transaction.
    pub closed spec fn spec_max_fee(&self) -> u64 { self.max_fee }

    /// Id of the next transaction.
    pub closed spec fn spec_next_id(&self) -> TxId { self.next_id }

    /// Transactions generated so far.
    pub closed spec fn spec_txs_generated(&self) -> u64 { self.txs_generated }

    /// Transactions generated so far.
    pub fn txs_generated(&self) -> (v: u64)
        ensures
            v == self.spec_txs_generated(),
    {
        self.txs_generated
    }

    /// Their total gas.
    pub closed spec fn spec_total_gas(&self) -> u64 { self.total_gas }

    /// Their total gas.
    pub fn total_gas(&self) -> (v: u64)
        ensures
            v == self.spec_total_gas(),
    {
        self.total_gas
    }

    /// Their total value (fee times gas).
    pub closed spec fn spec_total_value(&self) -> u64 { self.total_value }

    /// Their total value (fee times gas).
    pub fn total_value(&self) -> (v: u64)
        ensures
            v == self.spec_total_value(),
    {
        self.total_value
    }

    /// Lowest fee so far (`u64::MAX` before the first).
    pub closed spec fn spec_min_fee_seen(&self) -> u64 { self.min_fee_seen }

    /// Lowest fee so far (`u64::MAX` before the first).
    pub fn min_fee_seen(&self) -> (v: u64)
        ensures
            v == self.spec_min_fee_seen(),
    {
        self.min_fee_seen
    }

    /// Highest fee so far (0 before the first).
    pub closed spec fn spec_max_fee_seen(&self) -> u64 { self.max_fee_seen }

    /// Highest fee so far (0 before the first).
    pub fn max_fee_seen(&self) -> (v: u64)
        ensures
            v == self.spec_max_fee_seen(),
    {
        self.max_fee_seen
    }

    /// A generator of transactions numbered from `start_id`, with gas in
    /// `min_gas..=max_gas` and fees in `min_fee..=max_fee`.
    pub fn new(min_gas: u64, max_gas: u64, min_fee: u64, max_fee: u64, start_id: TxId) -> (g: Self)
        ensures
            g.spec_min_gas() == min_gas,
            g.spec_max_gas() == max_gas,
            g.spec_min_fee() == min_fee,
            g.spec_max_fee() == max_fee,
            g.spec_next_id() == start_id,
            g.spec_txs_generated() == 0,
            g.spec_total_gas() == 0,
            g.spec_total_value() == 0,
            g.spec_min_fee_seen() == u64::MAX,
            g.spec_max_fee_seen() == 0,
    {
        GeneratorCore {
            min_gas,
            max_gas,
            min_fee,
            max_fee,
            next_id: start_id,
            rng: thread_rng(),
            txs_generated: 0,
            total_gas: 0,
            total_value: 0,
            min_fee_seen: u64::MAX,
            max_fee_seen: 0,
        }
    }

    /// Generating one more transaction overflows neither the ids nor a total.
    pub open spec fn can_generate(&self) -> bool {
        &&& self.spec_min_gas() <= self.spec_max_gas()
        &&& self.spec_min_fee() <= self.spec_max_fee()
        &&& self.spec_next_id() < u64::MAX
        &&& self.spec_txs_generated() < u64::MAX
        &&& self.spec_total_gas() + self.spec_max_gas() <= u64::MAX
        &&& self.spec_total_value() + self.spec_max_fee() * self.spec_max_gas() <= u64::MAX
    }

    /// Whether generating one more transaction overflows neither the ids nor a
    /// total, with non-empty bounds.
    pub fn can_generate_now(&self) -> (b: bool)
        ensures
            b == self.can_generate(),
    {
        proof {
            vstd::arithmetic::mul::lemma_mul_upper_bound(self.max_fee as int, u64::MAX as int, self.max_gas as int, u64::MAX as int);
            assert(u64::MAX as int * u64::MAX as int <= u128::MAX - u64::MAX) by (nonlinear_arith);
        }
        self.min_gas <= self.max_gas
            && self.min_fee <= self.max_fee
            && self.next_id < u64::MAX
            && self.txs_generated < u64::MAX
            && (self.total_gas as u128) + (self.max_gas as u128) <= u64::MAX as u128
            && (self.total_value as u128) + (self.max_fee as u128) * (self.max_gas as u128) <= u64::MAX as u128
    }

    /// Generate the next transaction: the next id, a random gas in the gas
    /// bounds, and a fee that is `raw_fee` clamped into the fee bounds when
    /// given, or a random fee in those bounds otherwise. The totals count it.
    pub fn generate(&mut self, raw_fee: Option<u64>) -> (tx: Tx)
        requires
            old(self).can_generate(),
        ensures
            tx.id == old(self).spec_next_id(),
            tx.max_fee_gwei is None,
            old(self).spec_min_gas() <= tx.gas_limit <= old(self).spec_max_gas(),
            old(self).spec_min_fee() <= tx.priority_fee_gwei <= old(self).spec_max_fee(),
            raw_fee matches Some(v) ==> tx.priority_fee_gwei == clamped(v, old(self).spec_min_fee(), old(self).spec_max_fee()),
            final(self).spec_next_id() == old(self).spec_next_id() + 1,
            final(self).spec_min_gas() == old(self).spec_min_gas(),
            final(self).spec_max_gas() == old(self).spec_max_gas(),
            final(self).spec_min_fee() == old(self).spec_min_fee(),
            final(self).spec_max_fee() == old(self).spec_max_fee(),
            final(self).spec_txs_generated() == old(self).spec_txs_generated() + 1,
            final(self).spec_total_gas() == old(self).spec_total_gas() + tx.gas_limit,
            final(self).spec_total_value() == old(self).spec_total_value() + tx.priority_fee_gwei * tx.gas_limit,
            final(self).spec_min_fee_seen() == if tx.priority_fee_gwei < old(self).spec_min_fee_seen() { tx.priority_fee_gwei } else { old(self).spec_min_fee_seen() },
            final(self).spec_max_fee_seen() == if tx.priority_fee_gwei > old(self).spec_max_fee_seen() { tx.priority_fee_gwei } else { old(self).spec_max_fee_seen() },
    {
        let id = self.next_id;
        self.next_id = self.next_id + 1;
        let gas = gen_range_inclusive(&mut self.rng, self.min_gas, self.max_gas);
        let fee = match raw_fee {
            Some(v) => if v < self.min_fee { self.min_fee } else if v > self.max_fee { self.max_fee } else { v },
            None => gen_range_inclusive(&mut self.rng, self.min_fee, self.max_fee),
        };
        proof {
            vstd::arithmetic::mul::lemma_mul_upper_bound(fee as int, self.max_fee as int, gas as int, self.max_gas as int);
        }
        self.txs_generated = self.txs_generated + 1;
        self.total_gas = self.total_gas + gas;
        self.total_value = self.total_value + fee * gas;
        if fee < self.min_fee_seen {
            self.min_fee_seen = fee;
        }
        if fee > self.max_fee_seen {
            self.max_fee_seen = fee;
        }
        Tx::new(id, gas, fee)
    }
}

} // verus!
