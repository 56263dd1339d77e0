use vstd::prelude::*;
use crate::tx::{Tx, TxId};
use crate::seqs::{sum_gas, sum_value, has_id, first_id_index, gas_fn, value_fn, lemma_sum_push, lemma_sum_remove, lemma_sum_nonneg, lemma_first_id_index, lemma_first_id_index_is};

verus! {

/// A block being built or already sealed.
#[derive(Debug, Clone)]
pub struct Block {
    /// Block number/height
    pub number: u64,
    /// Transactions included in this block
    pub transactions: Vec<Tx>,
    /// Maximum gas this block can use
    pub gas_limit: u64,
    /// Current gas used by included transactions
    pub gas_used: u64,
    /// Total value (fees) from all transactions
    pub total_value: u64,
}

impl Block {
    /// The counters agree with the transactions, and the gas stays within the limit.
    pub open spec fn wf(&self) -> bool {
        &&& self.gas_used == sum_gas(self.transactions@)
        &&& self.total_value == sum_value(self.transactions@)
        &&& self.gas_used <= self.gas_limit
    }

    /// Remaining gas, saturating at zero.
    pub open spec fn spec_remaining(&self) -> u64 {
        if self.gas_used <= self.gas_limit {
            (self.gas_limit - self.gas_used) as u64
        } else {
            0
        }
    }

    /// Create a new empty block.
    pub fn new(number: u64, gas_limit: u64) -> (b: Self)
        ensures
            b.number == number,
            b.gas_limit == gas_limit,
            b.transactions@ == Seq::<Tx>::empty(),
            b.gas_used == 0,
            b.total_value == 0,
            b.wf(),
    {
        Block { number, transactions: Vec::new(), gas_limit, gas_used: 0, total_value: 0 }
    }

    /// Remaining gas capacity.
    pub fn remaining_gas(&self) -> (r: u64)
        ensures
            r == self.spec_remaining(),
    {
        self.gas_limit.saturating_sub(self.gas_used)
    }

    /// Whether a transaction fits in the remaining space.
    pub fn can_fit(&self, tx: &Tx) -> (b: bool)
        ensures
            b == (tx.gas_limit <= self.spec_remaining()),
    {
        tx.gas_limit <= self.remaining_gas()
    }

    /// Add a transaction to the block; returns false, and changes nothing,
    /// when it does not fit.
    pub fn add_tx(&mut self, tx: Tx) -> (added: bool)
        requires
            tx.gas_limit <= old(self).spec_remaining() ==> old(self).total_value + tx.spec_value() <= u64::MAX,
        ensures
            added == (tx.gas_limit <= old(self).spec_remaining()),
            added ==> final(self).transactions@ == old(self).transactions@.push(tx),
            added ==> final(self).gas_used == old(self).gas_used + tx.gas_limit,
            added ==> final(self).total_value == old(self).total_value + tx.spec_value(),
            !added ==> *final(self) == *old(self),
            final(self).number == old(self).number,
            final(self).gas_limit == old(self).gas_limit,
            old(self).wf() ==> final(self).wf(),
    {
        if !self.can_fit(&tx) {
            return false;
        }
        let v = tx.value();
        self.gas_used = self.gas_used + tx.gas_limit;
        self.total_value = self.total_value + v;
        self.transactions.push(tx);
        proof {
            lemma_sum_push(old(self).transactions@, tx, gas_fn());
            lemma_sum_push(old(self).transactions@, tx, value_fn());
        }
        true
    }

    /// Remove the first transaction with an id; returns it when found.
    pub fn remove_tx(&mut self, id: TxId) -> (removed: Option<Tx>)
        requires
            old(self).wf(),
        ensures
            final(self).wf(),
            final(self).number == old(self).number,
            final(self).gas_limit == old(self).gas_limit,
            removed is None <==> !has_id(old(self).transactions@, id),
            removed is None ==> *final(self) == *old(self),
            removed matches Some(t) ==> {
                let k = first_id_index(old(self).transactions@, id);
                &&& 0 <= k < old(self).transactions@.len()
                &&& t == old(self).transactions@[k]
                &&& t.id == id
                &&& final(self).transactions@ == old(self).transactions@.remove(k)
                &&& final(self).gas_used == old(self).gas_used - t.gas_limit
                &&& final(self).total_value == old(self).total_value - t.spec_value()
            },
    {
        proof {
            lemma_first_id_index(self.transactions@, id);
        }
        let n = self.transactions.len();
        let mut i: usize = 0;
        while i < n
            invariant
                n == self.transactions.len(),
                self == old(self),
                self.wf(),
                i <= n,
                forall|j: int| 0 <= j < i ==> self.transactions@[j].id != id,
            decreases n - i,
        {
            if self.transactions[i].id == id {
                proof {
                    lemma_first_id_index_is(self.transactions@, id, i as int);
                    lemma_sum_nonneg(self.transactions@, gas_fn());
                    lemma_sum_nonneg(self.transactions@, value_fn());
                    lemma_sum_remove(self.transactions@, i as int, gas_fn());
                    lemma_sum_remove(self.transactions@, i as int, value_fn());
                    assert(gas_fn()(self.transactions@[i as int]) <= sum_gas(self.transactions@));
                    assert(value_fn()(self.transactions@[i as int]) <= sum_value(self.transactions@));
                }
                let tx = self.transactions.remove(i);
                self.gas_used = self.gas_used - tx.gas_limit;
                self.total_value = self.total_value - tx.value();
                return Some(tx);
            }
            i = i + 1;
        }
        proof {
            if has_id(self.transactions@, id) {
                let j = choose|j: int| 0 <= j < self.transactions@.len() && #[trigger] self.transactions@[j].id == id;
                assert(self.transactions@[j].id != id);
            }
        }
        None
    }

    /// Number of transactions in the block.
    pub fn tx_count(&self) -> (n: usize)
        ensures
            n == self.transactions@.len(),
    {
        self.transactions.len()
    }

    /// The transaction with the lowest value density (priority fee), the first
    /// such one when several tie; `None` when the block is empty.
    pub fn worst_tx(&self) -> (w: Option<(usize, &Tx)>)
        ensures
            w is None <==> self.transactions@.len() == 0,
            w matches Some((k, t)) ==> {
                &&& k < self.transactions@.len()
                &&& *t == self.transactions@[k as int]
                &&& forall|j: int| 0 <= j < self.transactions@.len() ==>
                    t.priority_fee_gwei <= #[trigger] self.transactions@[j].priority_fee_gwei
                &&& forall|j: int| 0 <= j < k ==>
                    t.priority_fee_gwei < #[trigger] self.transactions@[j].priority_fee_gwei
            },
    {
        let n = self.transactions.len();
        if n == 0 {
            return None;
        }
        let mut best: usize = 0;
        let mut i: usize = 1;
        while i < n
            invariant
                n == self.transactions@.len(),
                0 <= best < i <= n,
                forall|j: int| 0 <= j < i ==>
                    self.transactions@[best as int].priority_fee_gwei <= #[trigger] self.transactions@[j].priority_fee_gwei,
                forall|j: int| 0 <= j < best ==>
                    self.transactions@[best as int].priority_fee_gwei < #[trigger] self.transactions@[j].priority_fee_gwei,
            decreases n - i,
        {
            if self.transactions[i].priority_fee_gwei < self.transactions[best].priority_fee_gwei {
                best = i;
            }
            i = i + 1;
        }
        Some((best, &self.transactions[best]))
    }

    /// Clear the block, keeping the same number and gas limit.
    pub fn clear(&mut self)
        ensures
            final(self).number == old(self).number,
            final(self).gas_limit == old(self).gas_limit,
            final(self).transactions@ == Seq::<Tx>::empty(),
            final(self).gas_used == 0,
            final(self).total_value == 0,
            final(self).wf(),
    {
        self.transactions.clear();
        self.gas_used = 0;
        self.total_value = 0;
    }
}

} // verus!
