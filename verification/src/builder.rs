use vstd::prelude::*;
use crate::tx::{Tx, TxId};
use crate::block::Block;
use crate::seqs::{one_fn, lemma_sum_one, 
    sum_gas, sum_value, sum_value_at, tx_sum, gas_fn, value_fn, value_at_fn, has_id, ids_distinct,
    remove_ids, picked, id_set, contains_id, lemma_remove_ids_none, distinct_positions, lemma_picked_removal, lemma_sum_nonneg,
    lemma_sum_le, lemma_sum_push, lemma_first_id_index, lemma_remove_ids_sub,
};
use crate::order::{sort_desc, is_desc_order, desc_before, lemma_desc_order_unique};
use crate::pool::{Pool, descending_density_keys};

verus! {

/// Result of a block building operation.
#[derive(Debug)]
pub struct BuildResult {
    /// The built block
    pub block: Block,
    /// IDs of transactions that were included
    pub included: Vec<TxId>,
    /// Number of transactions considered
    pub considered: usize,
    /// Number of transactions skipped (didn't fit)
    pub skipped: usize,
}

/// Result of an incremental update attempt.
#[derive(Debug, Clone, Copy, PartialEq, Eq, Structural)]
pub enum UpdateResult {
    /// Transaction was added (had space)
    Added,
    /// Transaction replaced another (with the evicted tx id)
    Replaced(TxId),
    /// Transaction replaced multiple others (with count)
    ReplacedMultiple(usize),
    /// Transaction was rejected (not better than worst)
    Rejected,
    /// Transaction already exists in block
    Duplicate,
    /// Transaction can't afford current base fee
    InsufficientFee,
}

/// Statistics about incremental building.
#[derive(Debug, Clone, Copy)]
pub struct IncrementalStats {
    pub txs_received: u64,
    pub txs_added: u64,
    pub txs_replaced: u64,
    pub txs_rejected: u64,
    pub txs_duplicate: u64,
    pub txs_insufficient_fee: u64,
    pub multi_replacements: u64,
}

impl IncrementalStats {
    /// All counters at zero.
    pub open spec fn zero() -> IncrementalStats {
        IncrementalStats {
            txs_received: 0,
            txs_added: 0,
            txs_replaced: 0,
            txs_rejected: 0,
            txs_duplicate: 0,
            txs_insufficient_fee: 0,
            multi_replacements: 0,
        }
    }

    /// Every received transaction is counted under exactly one outcome.
    pub open spec fn counted(self) -> bool {
        self.txs_added + self.txs_replaced + self.txs_rejected + self.txs_duplicate
            + self.txs_insufficient_fee == self.txs_received
    }

    /// No counter that recording `r` increments is at its maximum.
    pub open spec fn can_record(self, r: UpdateResult) -> bool {
        &&& self.txs_received < u64::MAX
        &&& match r {
            UpdateResult::Added => self.txs_added < u64::MAX,
            UpdateResult::Replaced(_) => self.txs_replaced < u64::MAX,
            UpdateResult::ReplacedMultiple(n) => self.txs_replaced < u64::MAX
                && self.multi_replacements + n <= u64::MAX,
            UpdateResult::Rejected => self.txs_rejected < u64::MAX,
            UpdateResult::Duplicate => self.txs_duplicate < u64::MAX,
            UpdateResult::InsufficientFee => self.txs_insufficient_fee < u64::MAX,
        }
    }

    /// The counters after recording `r`.
    pub open spec fn recorded(self, r: UpdateResult) -> IncrementalStats {
        let s = IncrementalStats { txs_received: (self.txs_received + 1) as u64, ..self };
        match r {
            UpdateResult::Added => IncrementalStats { txs_added: (self.txs_added + 1) as u64, ..s },
            UpdateResult::Replaced(_) => IncrementalStats { txs_replaced: (self.txs_replaced + 1) as u64, ..s },
            UpdateResult::ReplacedMultiple(n) => IncrementalStats {
                txs_replaced: (self.txs_replaced + 1) as u64,
                multi_replacements: (self.multi_replacements + n) as u64,
                ..s
            },
            UpdateResult::Rejected => IncrementalStats { txs_rejected: (self.txs_rejected + 1) as u64, ..s },
            UpdateResult::Duplicate => IncrementalStats { txs_duplicate: (self.txs_duplicate + 1) as u64, ..s },
            UpdateResult::InsufficientFee => IncrementalStats {
                txs_insufficient_fee: (self.txs_insufficient_fee + 1) as u64,
                ..s
            },
        }
    }

    /// Count one processed transaction under its outcome.
    pub fn record(&mut self, result: &UpdateResult)
        requires
            old(self).can_record(*result),
        ensures
            *final(self) == old(self).recorded(*result),
            old(self).counted() ==> final(self).counted(),
    {
        self.txs_received = self.txs_received + 1;
        match result {
            UpdateResult::Added => self.txs_added = self.txs_added + 1,
            UpdateResult::Replaced(_) => self.txs_replaced = self.txs_replaced + 1,
            UpdateResult::ReplacedMultiple(n) => {
                self.txs_replaced = self.txs_replaced + 1;
                self.multi_replacements = self.multi_replacements + *n as u64;
            },
            UpdateResult::Rejected => self.txs_rejected = self.txs_rejected + 1,
            UpdateResult::Duplicate => self.txs_duplicate = self.txs_duplicate + 1,
            UpdateResult::InsufficientFee => self.txs_insufficient_fee = self.txs_insufficient_fee + 1,
        }
    }
}

impl Default for IncrementalStats {
    fn default() -> (s: Self)
        ensures
            s == IncrementalStats::zero(),
    {
        IncrementalStats {
            txs_received: 0,
            txs_added: 0,
            txs_replaced: 0,
            txs_rejected: 0,
            txs_duplicate: 0,
            txs_insufficient_fee: 0,
            multi_replacements: 0,
        }
    }
}

/// Keys that order a block's transactions by effective priority fee, lowest first
/// (in a stable descending order of the keys).
pub open spec fn ascending_fee_keys(s: Seq<Tx>, base_fee: u64) -> Seq<u128> {
    s.map_values(|t: Tx| (u64::MAX - t.effective_fee(base_fee)) as u128)
}

/// How many of the lowest-fee transactions (in the order `p`, from position `a`,
/// with `freed` gas already free) the greedy replacement evicts for `tx`: it stops
/// once enough gas is free, or at a transaction whose fee is not below that of `tx`.
pub open spec fn evict_count(c: Seq<Tx>, p: Seq<usize>, a: int, freed: int, tx: Tx, base_fee: u64) -> int
    decreases p.len() - a,
{
    if a < 0 || a >= p.len() || freed >= tx.gas_limit
        || tx.effective_fee(base_fee) <= c[p[a] as int].effective_fee(base_fee) {
        0
    } else {
        1 + evict_count(c, p, a + 1, freed + c[p[a] as int].gas_limit, tx, base_fee)
    }
}

/// Outcome of replacing into a full block with transactions `c` and `remaining`
/// free gas, where `p` orders `c` by effective fee (lowest first, stable): the new
/// transactions and the result.
pub open spec fn replace_outcome(c: Seq<Tx>, remaining: u64, tx: Tx, base_fee: u64, p: Seq<usize>) -> (Seq<Tx>, UpdateResult) {
    let k = evict_count(c, p, 0, remaining as int, tx, base_fee);
    let ev = picked(c, p, k);
    if remaining + sum_gas(ev) < tx.gas_limit || tx.spec_value_at(base_fee) <= sum_value_at(ev, base_fee) || k == 0 {
        (c, UpdateResult::Rejected)
    } else {
        (
            remove_ids(c, id_set(ev)).push(tx),
            if k > 1 { UpdateResult::ReplacedMultiple(k as usize) } else { UpdateResult::Replaced(ev[0].id) },
        )
    }
}

/// Greedy packing: taking the transactions of `s` in order, each one that fits in
/// the gas left under `limit` is included; the others are skipped.
pub open spec fn greedy_pack(s: Seq<Tx>, limit: int) -> Seq<Tx>
    decreases s.len(),
{
    if s.len() == 0 {
        s
    } else {
        let prev = greedy_pack(s.drop_last(), limit);
        if sum_gas(prev) + s.last().gas_limit <= limit {
            prev.push(s.last())
        } else {
            prev
        }
    }
}

/// The stable order of `s` by priority fee, highest first (ties in arrival order).
pub open spec fn density_order(s: Seq<Tx>) -> Seq<usize> {
    choose|p: Seq<usize>| is_desc_order(descending_density_keys(s), p)
}

/// What greedy packing into `limit` gas takes from `s` in that order.
pub open spec fn density_pack(s: Seq<Tx>, limit: int) -> Seq<Tx> {
    greedy_pack(density_order(s).map_values(|i: usize| s[i as int]), limit)
}

/// Block builder with greedy and incremental algorithms.
#[derive(Debug)]
pub struct Builder {
    /// Gas limit for blocks
    block_gas_limit: u64,
    /// Current block number
    next_block_number: u64,
    /// Current candidate block being built incrementally
    candidate: Option<Block>,
    /// Stats for incremental building
    stats: IncrementalStats,
    /// Current base fee (for EIP-1559 transactions)
    base_fee_gwei: u64,
}

impl Builder {
    /// Gas limit for the blocks this builder builds.
    pub closed spec fn spec_gas_limit(&self) -> u64 {
        self.block_gas_limit
    }

    /// Number of the block being built.
    pub closed spec fn spec_next_number(&self) -> u64 {
        self.next_block_number
    }

    /// The candidate block, if any.
    pub closed spec fn spec_candidate(&self) -> Option<Block> {
        self.candidate
    }

    /// Counters of the current block.
    pub closed spec fn spec_stats(&self) -> IncrementalStats {
        self.stats
    }

    /// Base fee used for EIP-1559 transactions.
    pub closed spec fn spec_base_fee(&self) -> u64 {
        self.base_fee_gwei
    }

    /// Transactions of the candidate; empty when there is none.
    pub open spec fn cand_txs(&self) -> Seq<Tx> {
        match self.spec_candidate() {
            Some(b) => b.transactions@,
            None => Seq::empty(),
        }
    }

    /// Free gas of the candidate; the whole limit when there is none.
    pub open spec fn cand_remaining(&self) -> u64 {
        match self.spec_candidate() {
            Some(b) => b.spec_remaining(),
            None => self.spec_gas_limit(),
        }
    }

    /// Value of the candidate; zero when there is none.
    pub open spec fn cand_value(&self) -> int {
        match self.spec_candidate() {
            Some(b) => b.total_value as int,
            None => 0,
        }
    }

    /// The candidate is a consistent block of this builder's number and gas limit
    /// whose transactions have distinct ids, and the counters add up.
    pub open spec fn wf(&self) -> bool {
        &&& self.spec_candidate() matches Some(b) ==> {
            &&& b.wf()
            &&& ids_distinct(b.transactions@)
            &&& b.number == self.spec_next_number()
            &&& b.gas_limit == self.spec_gas_limit()
        }
        &&& self.spec_stats().counted()
    }

    /// Create a new builder.
    pub fn new(block_gas_limit: u64) -> (b: Self)
        ensures
            b.wf(),
            b.spec_gas_limit() == block_gas_limit,
            b.spec_next_number() == 1,
            b.spec_candidate() is None,
            b.spec_stats() == IncrementalStats::zero(),
            b.spec_base_fee() == 0,
    {
        Builder {
            block_gas_limit,
            next_block_number: 1,
            candidate: None,
            stats: IncrementalStats::default(),
            base_fee_gwei: 0,
        }
    }

    /// Create a new builder starting at a specific block number.
    pub fn with_start_block(block_gas_limit: u64, start_block: u64) -> (b: Self)
        ensures
            b.wf(),
            b.spec_gas_limit() == block_gas_limit,
            b.spec_next_number() == start_block,
            b.spec_candidate() is None,
            b.spec_stats() == IncrementalStats::zero(),
            b.spec_base_fee() == 0,
    {
        Builder {
            block_gas_limit,
            next_block_number: start_block,
            candidate: None,
            stats: IncrementalStats::default(),
            base_fee_gwei: 0,
        }
    }

    /// Set the base fee for EIP-1559 calculations.
    pub fn set_base_fee(&mut self, base_fee_gwei: u64)
        ensures
            final(self).spec_base_fee() == base_fee_gwei,
            final(self).spec_gas_limit() == old(self).spec_gas_limit(),
            final(self).spec_next_number() == old(self).spec_next_number(),
            final(self).spec_candidate() == old(self).spec_candidate(),
            final(self).spec_stats() == old(self).spec_stats(),
    {
        self.base_fee_gwei = base_fee_gwei;
    }

    /// Current base fee.
    pub fn base_fee(&self) -> (f: u64)
        ensures
            f == self.spec_base_fee(),
    {
        self.base_fee_gwei
    }

    /// The transaction can be processed without a counter or the candidate's
    /// value overflowing a `u64`: the value bound matters only for a transaction
    /// that may be taken in (it pays the base fee and is no duplicate).
    pub open spec fn can_process(&self, tx: Tx) -> bool {
        &&& self.wf()
        &&& self.spec_stats().txs_received < u64::MAX
        &&& self.spec_stats().multi_replacements + self.cand_txs().len() <= u64::MAX
        &&& tx.affords(self.spec_base_fee()) && !has_id(self.cand_txs(), tx.id)
            ==> self.cand_value() + tx.spec_value() <= u64::MAX
    }

    /// `next` is this builder after processing `tx` with result `r`: a transaction
    /// that cannot pay the base fee changes nothing; one whose id the candidate
    /// holds is a duplicate; one that fits is added; otherwise the greedy
    /// replacement decides. The counters record the result, and the candidate's
    /// value grows by at most the transaction's value.
    pub open spec fn processed(&self, next: Builder, tx: Tx, r: UpdateResult) -> bool {
        &&& next.wf()
        &&& self.spec_stats().can_record(r)
        &&& next.spec_gas_limit() == self.spec_gas_limit()
        &&& next.spec_next_number() == self.spec_next_number()
        &&& next.spec_base_fee() == self.spec_base_fee()
        &&& next.spec_stats() == self.spec_stats().recorded(r)
        &&& next.cand_value() <= self.cand_value() + tx.spec_value()
        &&& next.spec_stats().multi_replacements + next.cand_txs().len()
            <= self.spec_stats().multi_replacements + self.cand_txs().len() + 1
        &&& forall|j: int| 0 <= j < next.cand_txs().len() ==>
            #[trigger] next.cand_txs()[j] == tx || self.cand_txs().contains(next.cand_txs()[j])
        &&& !tx.affords(self.spec_base_fee()) ==> r == UpdateResult::InsufficientFee
            && next.spec_candidate() == self.spec_candidate()
        &&& tx.affords(self.spec_base_fee()) ==> next.spec_candidate() is Some
        &&& tx.affords(self.spec_base_fee()) && has_id(self.cand_txs(), tx.id) ==>
            r == UpdateResult::Duplicate && next.cand_txs() == self.cand_txs()
        &&& tx.affords(self.spec_base_fee()) && !has_id(self.cand_txs(), tx.id)
            && tx.gas_limit <= self.cand_remaining() ==>
            r == UpdateResult::Added && next.cand_txs() == self.cand_txs().push(tx)
        &&& tx.affords(self.spec_base_fee()) && !has_id(self.cand_txs(), tx.id)
            && tx.gas_limit > self.cand_remaining() ==>
            exists|p: Seq<usize>| is_desc_order(ascending_fee_keys(self.cand_txs(), self.spec_base_fee()), p)
                && replace_outcome(self.cand_txs(), self.cand_remaining(), tx, self.spec_base_fee(), p)
                    == (next.cand_txs(), r)
    }

    /// Whether the transaction can be processed without a counter or the
    /// candidate's value overflowing a `u64`.
    pub fn can_process_tx(&self, tx: &Tx) -> (b: bool)
        requires
            self.wf(),
        ensures
            b == self.can_process(*tx),
    {
        let (len, value, dup): (usize, u64, bool) = match &self.candidate {
            Some(c) => (c.transactions.len(), c.total_value, contains_id(&c.transactions, tx.id)),
            None => (0, 0, false),
        };
        let takes = tx.can_afford_base_fee(self.base_fee_gwei) && !dup;
        let g = tx.gas_limit as u128;
        let f = tx.priority_fee_gwei as u128;
        proof {
            vstd::arithmetic::mul::lemma_mul_upper_bound(g as int, u64::MAX as int, f as int, u64::MAX as int);
            assert(u64::MAX as int * u64::MAX as int <= u128::MAX - u64::MAX) by (nonlinear_arith);
        }
        let tx_value = g * f;
        self.stats.txs_received < u64::MAX
            && (self.stats.multi_replacements as u128) + (len as u128) <= u64::MAX as u128
            && (!takes || (value as u128) + tx_value <= u64::MAX as u128)
    }

    /// Process a new transaction incrementally: refuse it when it cannot pay the
    /// base fee or is already in the candidate, add it when it fits, and otherwise
    /// try to replace the lowest-fee transactions with it.
    pub fn process_tx(&mut self, tx: Tx) -> (r: UpdateResult)
        requires
            old(self).can_process(tx),
        ensures
            old(self).processed(*final(self), tx, r),
    {
        if !tx.can_afford_base_fee(self.base_fee_gwei) {
            let result = UpdateResult::InsufficientFee;
            self.stats.record(&result);
            return result;
        }
        let mut cand = match self.candidate.take() {
            Some(b) => b,
            None => Block::new(self.next_block_number, self.block_gas_limit),
        };
        let n = cand.transactions.len();
        if contains_id(&cand.transactions, tx.id) {
            self.candidate = Some(cand);
            let result = UpdateResult::Duplicate;
            self.stats.record(&result);
            return result;
        }
        if cand.can_fit(&tx) {
            cand.add_tx(tx);
            proof {
                assert forall|a: int, b: int| 0 <= a < cand.transactions@.len() && 0 <= b < cand.transactions@.len() && a != b
                    implies #[trigger] cand.transactions@[a].id != #[trigger] cand.transactions@[b].id by {
                    if a == n as int {
                        assert(cand.transactions@[b] == old(self).cand_txs()[b]);
                    } else if b == n as int {
                        assert(cand.transactions@[a] == old(self).cand_txs()[a]);
                    }
                }
            }
            assert forall|j: int| 0 <= j < cand.transactions@.len() implies
                #[trigger] cand.transactions@[j] == tx || old(self).cand_txs().contains(cand.transactions@[j]) by {
                if j < n {
                    assert(cand.transactions@[j] == old(self).cand_txs()[j]);
                }
            }
            self.candidate = Some(cand);
            let result = UpdateResult::Added;
            self.stats.record(&result);
            return result;
        }
        let result = Self::try_smart_replace(&mut cand, tx, self.base_fee_gwei);
        self.candidate = Some(cand);
        proof {
            if let UpdateResult::ReplacedMultiple(k) = result {
                assert(k <= n);
            }
        }
        self.stats.record(&result);
        result
    }

    /// Smart replacement: evict the fewest lowest-fee transactions that free enough
    /// gas for `new_tx`, when each has a lower fee than `new_tx` and together they
    /// are worth less than it.
    fn try_smart_replace(cand: &mut Block, new_tx: Tx, base_fee: u64) -> (r: UpdateResult)
        requires
            old(cand).wf(),
            ids_distinct(old(cand).transactions@),
            !has_id(old(cand).transactions@, new_tx.id),
            new_tx.gas_limit > old(cand).spec_remaining(),
            old(cand).total_value + new_tx.spec_value() <= u64::MAX,
        ensures
            final(cand).wf(),
            ids_distinct(final(cand).transactions@),
            final(cand).number == old(cand).number,
            final(cand).gas_limit == old(cand).gas_limit,
            r is ReplacedMultiple ==> r->ReplacedMultiple_0 <= old(cand).transactions@.len(),
            r is Rejected || r is Replaced || r is ReplacedMultiple,
            final(cand).total_value <= old(cand).total_value + new_tx.spec_value(),
            final(cand).transactions@.len() + (if r is ReplacedMultiple { r->ReplacedMultiple_0 as int } else { 0 })
                <= old(cand).transactions@.len() + 1,
            forall|j: int| 0 <= j < final(cand).transactions@.len() ==>
                #[trigger] final(cand).transactions@[j] == new_tx || old(cand).transactions@.contains(final(cand).transactions@[j]),
            exists|p: Seq<usize>| is_desc_order(ascending_fee_keys(old(cand).transactions@, base_fee), p)
                && replace_outcome(old(cand).transactions@, old(cand).spec_remaining(), new_tx, base_fee, p)
                    == (final(cand).transactions@, r),
    {
        let ghost c = cand.transactions@;
        let n = cand.transactions.len();
        proof {
            new_tx.lemma_value_at_le(base_fee);
            crate::seqs::lemma_sum_nonneg(old(cand).transactions@, value_fn());
        }
        let new_tx_value = new_tx.value_at_base_fee(base_fee);
        let new_fee = new_tx.effective_priority_fee(base_fee);
        // Keys that sort the current transactions by fee, lowest first.
        let mut keys: Vec<u128> = Vec::new();
        let mut i: usize = 0;
        while i < n
            invariant
                n == cand.transactions@.len(),
                cand.transactions@ == c,
                i <= n,
                keys@.len() == i,
                forall|j: int| 0 <= j < i ==> #[trigger] keys@[j] == ascending_fee_keys(c, base_fee)[j],
            decreases n - i,
        {
            let f = cand.transactions[i].effective_priority_fee(base_fee);
            keys.push((u64::MAX - f) as u128);
            i = i + 1;
        }
        assert(keys@ =~= ascending_fee_keys(c, base_fee));
        let order = sort_desc(&keys);
        let ghost p = order@;
        assert(distinct_positions(c, p)) by {
            assert forall|a: int, b: int| 0 <= a < b < p.len() implies #[trigger] p[a] != #[trigger] p[b] by {
                assert(desc_before(keys@, p[a] as int, p[b] as int));
            }
        }
        let remaining = cand.remaining_gas();
        let ghost k = evict_count(c, p, 0, remaining as int, new_tx, base_fee);
        proof {
            lemma_sum_nonneg(c, gas_fn());
            lemma_sum_nonneg(c, value_fn());
            Self::lemma_evict_count_bounds(c, p, 0, remaining as int, new_tx, base_fee);
        }
        // Find the fewest lowest-fee transactions to evict.
        let mut to_evict: Vec<TxId> = Vec::new();
        let mut freed_gas: u64 = remaining;
        let mut evicted_value: u64 = 0;
        let mut a: usize = 0;
        while a < n
            invariant_except_break
                a <= k,
            invariant
                n == cand.transactions@.len(),
                cand.transactions@ == c,
                *cand == *old(cand),
                old(cand).wf(),
                ids_distinct(c),
                is_desc_order(ascending_fee_keys(c, base_fee), p),
                distinct_positions(c, p),
                order@ == p,
                p.len() == n,
                remaining == old(cand).spec_remaining(),
                0 <= k <= n,
                k == evict_count(c, p, 0, remaining as int, new_tx, base_fee),
                a <= n,
                a <= k ==> k == a + evict_count(c, p, a as int, freed_gas as int, new_tx, base_fee),
                freed_gas == remaining + sum_gas(picked(c, p, a as int)),
                evicted_value == sum_value_at(picked(c, p, a as int), base_fee),
                to_evict@.len() == a,
                forall|j: int| 0 <= j < a ==> #[trigger] to_evict@[j] == c[p[j] as int].id,
                new_fee == new_tx.effective_fee(base_fee),
            ensures
                a == k,
            decreases n - a,
        {
            let t = &cand.transactions[order[a]];
            if freed_gas >= new_tx.gas_limit {
                break;
            }
            let t_fee = t.effective_priority_fee(base_fee);
            if new_fee <= t_fee {
                break;
            }
            proof {
                Self::lemma_evict_count_bounds(c, p, a as int + 1, freed_gas + t.gas_limit, new_tx, base_fee);
                lemma_picked_removal(c, p, a as int + 1, gas_fn());
                lemma_picked_removal(c, p, a as int + 1, value_fn());
                lemma_picked_removal(c, p, a as int, gas_fn());
                lemma_sum_nonneg(remove_ids(c, id_set(picked(c, p, a as int + 1))), gas_fn());
                lemma_sum_nonneg(remove_ids(c, id_set(picked(c, p, a as int + 1))), value_fn());
                lemma_sum_push(picked(c, p, a as int), *t, gas_fn());
                lemma_sum_push(picked(c, p, a as int), *t, value_at_fn(base_fee));
                lemma_value_at_le(picked(c, p, a as int + 1), base_fee);
                assert(c.contains(*t));
                t.lemma_value_at_le(base_fee);
                assert(t.value_fits()) by {
                    lemma_sum_nonneg(c, value_fn());
                    let j = choose|j: int| 0 <= j < c.len() && c[j] == *t;
                    assert(value_fn()(c[j]) <= sum_value(c));
                }
            }
            to_evict.push(t.id);
            freed_gas = freed_gas + t.gas_limit;
            evicted_value = evicted_value + t.value_at_base_fee(base_fee);
            a = a + 1;
        }
        proof {
            if a == n {
                assert(evict_count(c, p, a as int, freed_gas as int, new_tx, base_fee) == 0);
            }
        }
        if freed_gas < new_tx.gas_limit {
            proof { Self::lemma_outcome_unchanged(c, p, remaining, new_tx, base_fee); }
            return UpdateResult::Rejected;
        }
        if new_tx_value <= evicted_value {
            proof { Self::lemma_outcome_unchanged(c, p, remaining, new_tx, base_fee); }
            return UpdateResult::Rejected;
        }
        if to_evict.len() == 0 {
            proof { Self::lemma_outcome_unchanged(c, p, remaining, new_tx, base_fee); }
            return UpdateResult::Rejected;
        }
        let evict_count_exec = to_evict.len();
        let first_evicted = to_evict[0];
        proof {
            assert(picked(c, p, 0) =~= Seq::<Tx>::empty());
            assert(id_set(picked(c, p, 0)) =~= Set::<TxId>::empty());
            lemma_remove_ids_none(c);
        }
        let mut j: usize = 0;
        while j < evict_count_exec
            invariant
                evict_count_exec == k,
                0 < k <= n,
                j <= k,
                ids_distinct(c),
                distinct_positions(c, p),
                p.len() == n,
                to_evict@.len() == k,
                forall|q: int| 0 <= q < k ==> #[trigger] to_evict@[q] == c[p[q] as int].id,
                cand.wf(),
                cand.number == old(cand).number,
                cand.gas_limit == old(cand).gas_limit,
                cand.transactions@ == remove_ids(c, id_set(picked(c, p, j as int))),
                cand.gas_used == old(cand).gas_used - sum_gas(picked(c, p, j as int)),
                cand.total_value == old(cand).total_value - sum_value(picked(c, p, j as int)),
            decreases k - j,
        {
            proof {
                lemma_picked_removal(c, p, j as int, gas_fn());
                lemma_sum_push(picked(c, p, j as int), c[p[j as int] as int], gas_fn());
                lemma_sum_push(picked(c, p, j as int), c[p[j as int] as int], value_fn());
                lemma_first_id_index(cand.transactions@, to_evict@[j as int]);
            }
            let removed = cand.remove_tx(to_evict[j]);
            j = j + 1;
        }
        proof {
            lemma_picked_removal(c, p, k, gas_fn());
            lemma_picked_removal(c, p, k, value_fn());
            lemma_remove_ids_sub(c, id_set(picked(c, p, k)));
            assert(cand.gas_used == old(cand).gas_used - sum_gas(picked(c, p, k)));
            assert(cand.total_value == old(cand).total_value - sum_value(picked(c, p, k)));
            lemma_sum_nonneg(picked(c, p, k), value_fn());
            assert(picked(c, p, k)[0] == c[p[0] as int]);
            lemma_picked_removal(c, p, k, one_fn());
            lemma_sum_one(c);
            lemma_sum_one(picked(c, p, k));
            lemma_sum_one(remove_ids(c, id_set(picked(c, p, k))));
        }
        cand.add_tx(new_tx);
        proof {
            let r = remove_ids(c, id_set(picked(c, p, k)));
            assert forall|j: int| 0 <= j < cand.transactions@.len() implies
                #[trigger] cand.transactions@[j] == new_tx || c.contains(cand.transactions@[j]) by {
                if j < r.len() {
                    assert(cand.transactions@[j] == r[j]);
                }
            }
            assert(!has_id(r, new_tx.id));
            assert forall|x: int, y: int| 0 <= x < cand.transactions@.len() && 0 <= y < cand.transactions@.len() && x != y
                implies #[trigger] cand.transactions@[x].id != #[trigger] cand.transactions@[y].id by {
                if x == r.len() {
                    assert(cand.transactions@[y] == r[y]);
                } else if y == r.len() {
                    assert(cand.transactions@[x] == r[x]);
                }
            }
        }
        if evict_count_exec > 1 {
            UpdateResult::ReplacedMultiple(evict_count_exec)
        } else {
            UpdateResult::Replaced(first_evicted)
        }
    }

    proof fn lemma_evict_count_bounds(c: Seq<Tx>, p: Seq<usize>, a: int, freed: int, tx: Tx, base_fee: u64)
        requires
            0 <= a <= p.len(),
        ensures
            0 <= evict_count(c, p, a, freed, tx, base_fee) <= p.len() - a,
        decreases p.len() - a,
    {
        if a < p.len() {
            Self::lemma_evict_count_bounds(c, p, a + 1, freed + c[p[a] as int].gas_limit, tx, base_fee);
        }
    }

    proof fn lemma_outcome_unchanged(c: Seq<Tx>, p: Seq<usize>, remaining: u64, tx: Tx, base_fee: u64)
        ensures
            ({
                let k = evict_count(c, p, 0, remaining as int, tx, base_fee);
                let ev = picked(c, p, k);
                (remaining + sum_gas(ev) < tx.gas_limit || tx.spec_value_at(base_fee) <= sum_value_at(ev, base_fee) || k == 0)
                    ==> replace_outcome(c, remaining, tx, base_fee, p) == (c, UpdateResult::Rejected)
            }),
    {
    }

    /// Get reference to current candidate block.
    pub fn candidate(&self) -> (c: Option<&Block>)
        ensures
            c is None <==> self.spec_candidate() is None,
            c matches Some(b) ==> self.spec_candidate() == Some(*b),
    {
        match &self.candidate {
            Some(b) => Some(b),
            None => None,
        }
    }

    /// Get mutable reference to current candidate block.
    pub fn candidate_mut(&mut self) -> (c: Option<&mut Block>)
        ensures
            c is None <==> old(self).spec_candidate() is None,
            c is None ==> *final(self) == *old(self),
            c matches Some(b) ==> *b == old(self).spec_candidate()->0,
            c matches Some(b) ==> final(self).spec_candidate() == Some(*final(b)),
            final(self).spec_gas_limit() == old(self).spec_gas_limit(),
            final(self).spec_next_number() == old(self).spec_next_number(),
            final(self).spec_stats() == old(self).spec_stats(),
            final(self).spec_base_fee() == old(self).spec_base_fee(),
    {
        match &mut self.candidate {
            Some(b) => Some(b),
            None => None,
        }
    }

    /// `next` is this builder after sealing, with `out` handed out: the candidate
    /// leaves, and if there was one, the next block number advances and the
    /// counters restart.
    pub open spec fn sealed(&self, next: Builder, out: Option<Block>) -> bool {
        &&& out == self.spec_candidate()
        &&& next.spec_candidate() is None
        &&& next.spec_gas_limit() == self.spec_gas_limit()
        &&& next.spec_base_fee() == self.spec_base_fee()
        &&& out is Some ==> next.spec_next_number() == self.spec_next_number() + 1
            && next.spec_stats() == IncrementalStats::zero()
        &&& out is None ==> next.spec_next_number() == self.spec_next_number()
            && next.spec_stats() == self.spec_stats()
        &&& self.wf() ==> next.wf()
    }

    /// Seal the candidate block and return it; the next block number advances and
    /// the counters restart, unless there was no candidate.
    pub fn seal(&mut self) -> (sealed: Option<Block>)
        requires
            old(self).spec_candidate() is Some ==> old(self).spec_next_number() < u64::MAX,
        ensures
            old(self).sealed(*final(self), sealed),
    {
        let block = self.candidate.take();
        if block.is_some() {
            self.next_block_number = self.next_block_number + 1;
            self.stats = IncrementalStats::default();
        }
        block
    }

    /// Counters of the current block.
    pub fn stats(&self) -> (s: &IncrementalStats)
        ensures
            *s == self.spec_stats(),
    {
        &self.stats
    }

    /// Finalize without returning the block.
    pub fn seal_block(&mut self)
        requires
            old(self).spec_next_number() < u64::MAX,
        ensures
            final(self).spec_candidate() is None,
            final(self).spec_next_number() == old(self).spec_next_number() + 1,
            final(self).spec_stats() == IncrementalStats::zero(),
            final(self).spec_gas_limit() == old(self).spec_gas_limit(),
            final(self).spec_base_fee() == old(self).spec_base_fee(),
            final(self).wf(),
    {
        self.candidate = None;
        self.next_block_number = self.next_block_number + 1;
        self.stats = IncrementalStats::default();
    }


    /// Build a block from the pool: take its transactions highest priority fee
    /// first (ties in arrival order) and include each one that fits.
    pub fn build_greedy(&mut self, pool: &Pool) -> (res: BuildResult)
        requires
            pool.wf(),
            sum_value(density_pack(pool.spec_txs(), old(self).spec_gas_limit() as int)) <= u64::MAX,
        ensures
            *final(self) == *old(self),
            res.block.transactions@ == density_pack(pool.spec_txs(), old(self).spec_gas_limit() as int),
            res.block.wf(),
            res.block.number == old(self).spec_next_number(),
            res.block.gas_limit == old(self).spec_gas_limit(),
            res.considered == pool.spec_txs().len(),
            res.skipped == res.considered - res.block.transactions@.len(),
            res.included@ == res.block.transactions@.map_values(|t: Tx| t.id),
            exists|p: Seq<usize>| is_desc_order(descending_density_keys(pool.spec_txs()), p)
                && res.block.transactions@ == greedy_pack(
                    p.map_values(|i: usize| pool.spec_txs()[i as int]), old(self).spec_gas_limit() as int),
    {
        let mut block = Block::new(self.next_block_number, self.block_gas_limit);
        let mut included: Vec<TxId> = Vec::new();
        let mut skipped: usize = 0;
        let sorted = pool.sorted_by_density();
        let considered = sorted.len();
        let ghost s = pool.spec_txs();
        let ghost p = choose|p: Seq<usize>| is_desc_order(descending_density_keys(s), p) && sorted@.len() == s.len()
            && forall|a: int| 0 <= a < sorted@.len() ==> sorted@[a] == s[#[trigger] p[a] as int];
        let ghost ordered = p.map_values(|i: usize| s[i as int]);
        proof {
            assert(greedy_pack(ordered.take(0), self.block_gas_limit as int) =~= Seq::<Tx>::empty()) by {
                assert(ordered.take(0) =~= Seq::<Tx>::empty());
            }
            lemma_desc_order_unique(descending_density_keys(s), p, density_order(s));
            assert(ordered.take(considered as int) =~= ordered);
        }
        let mut i: usize = 0;
        while i < considered
            invariant
                considered == sorted@.len(),
                considered == s.len(),
                p.len() == s.len(),
                is_desc_order(descending_density_keys(s), p),
                forall|a: int| 0 <= a < sorted@.len() ==> sorted@[a] == s[#[trigger] p[a] as int],
                ordered == p.map_values(|i: usize| s[i as int]),
                ordered.take(considered as int) == ordered,
                sum_value(greedy_pack(ordered, self.block_gas_limit as int)) <= u64::MAX,
                i <= considered,
                block.wf(),
                block.number == self.next_block_number,
                block.gas_limit == self.block_gas_limit,
                block.transactions@ == greedy_pack(ordered.take(i as int), self.block_gas_limit as int),
                ids_distinct(s),
                included@ == block.transactions@.map_values(|t: Tx| t.id),
                skipped == i - block.transactions@.len(),
                block.transactions@.len() <= i,
            decreases considered - i,
        {
            let tx = sorted[i];
            proof {
                assert(ordered.take(i as int + 1).drop_last() =~= ordered.take(i as int));
                assert(ordered.take(i as int + 1).last() == *tx);
                lemma_greedy_value_grows(ordered, self.block_gas_limit as int, i as int + 1, considered as int);
                lemma_sum_push(block.transactions@, *tx, value_fn());
            }
            if block.can_fit(tx) {
                included.push(tx.id);
                block.add_tx(*tx);
                proof {
                    assert(included@ =~= block.transactions@.map_values(|t: Tx| t.id));
                }
            } else {
                skipped = skipped + 1;
            }
            i = i + 1;
        }
        proof {
            assert(ordered.take(considered as int) =~= ordered);
        }
        BuildResult { block, included, considered, skipped }
    }

    /// Number of the block being built.
    pub fn next_block_number(&self) -> (n: u64)
        ensures
            n == self.spec_next_number(),
    {
        self.next_block_number
    }

    /// Gas limit for blocks.
    pub fn gas_limit(&self) -> (g: u64)
        ensures
            g == self.spec_gas_limit(),
    {
        self.block_gas_limit
    }
}

/// One-off greedy build of block `block_number` from a pool.
pub fn greedy_build(pool: &Pool, block_number: u64, gas_limit: u64) -> (res: BuildResult)
    requires
        pool.wf(),
        sum_value(density_pack(pool.spec_txs(), gas_limit as int)) <= u64::MAX,
    ensures
        res.block.transactions@ == density_pack(pool.spec_txs(), gas_limit as int),
        res.block.wf(),
        res.block.number == block_number,
        res.block.gas_limit == gas_limit,
        res.considered == pool.spec_txs().len(),
        res.skipped == res.considered - res.block.transactions@.len(),
        res.included@ == res.block.transactions@.map_values(|t: Tx| t.id),
        exists|p: Seq<usize>| is_desc_order(descending_density_keys(pool.spec_txs()), p)
            && res.block.transactions@ == greedy_pack(
                p.map_values(|i: usize| pool.spec_txs()[i as int]), gas_limit as int),
{
    let mut builder = Builder::with_start_block(gas_limit, block_number);
    builder.build_greedy(pool)
}

/// The value greedy packing has taken never falls as it goes on.
proof fn lemma_greedy_value_grows(s: Seq<Tx>, limit: int, j: int, m: int)
    requires
        0 <= j <= m <= s.len(),
    ensures
        sum_value(greedy_pack(s.take(j), limit)) <= sum_value(greedy_pack(s.take(m), limit)),
    decreases m - j,
{
    if j < m {
        lemma_greedy_value_grows(s, limit, j, m - 1);
        let t = s.take(m);
        assert(t.drop_last() =~= s.take(m - 1));
        lemma_sum_push(greedy_pack(s.take(m - 1), limit), t.last(), value_fn());
        vstd::arithmetic::mul::lemma_mul_nonnegative(t.last().priority_fee_gwei as int, t.last().gas_limit as int);
    }
}

/// Each transaction is worth no more at a base fee than at its full priority fee.
proof fn lemma_value_at_le(s: Seq<Tx>, base_fee: u64)
    ensures
        sum_value_at(s, base_fee) <= sum_value(s),
        sum_value_at(s, base_fee) >= 0,
{
    assert forall|t: Tx| #[trigger] value_at_fn(base_fee)(t) <= value_fn()(t) by {
        vstd::arithmetic::mul::lemma_mul_inequality(
            t.effective_fee(base_fee) as int,
            t.priority_fee_gwei as int,
            t.gas_limit as int,
        );
    }
    lemma_sum_le(s, value_at_fn(base_fee), value_fn());
    assert forall|t: Tx| #[trigger] value_at_fn(base_fee)(t) >= 0 by {
        vstd::arithmetic::mul::lemma_mul_nonnegative(t.effective_fee(base_fee) as int, t.gas_limit as int);
    }
    crate::seqs::lemma_sum_nonneg(s, value_at_fn(base_fee));
}

/// A replacement always raises the candidate's value at the base fee: when the
/// greedy replacement evicts transactions for `tx` (result `Replaced` or
/// `ReplacedMultiple`), the new candidate is worth more than the old one.
pub proof fn lemma_replacement_raises_value(c: Seq<Tx>, remaining: u64, tx: Tx, base_fee: u64, p: Seq<usize>)
    requires
        ids_distinct(c),
        is_desc_order(ascending_fee_keys(c, base_fee), p),
    ensures
        ({
            let (next, r) = replace_outcome(c, remaining, tx, base_fee, p);
            (r is Replaced || r is ReplacedMultiple) ==> sum_value_at(next, base_fee) > sum_value_at(c, base_fee)
        }),
{
    let k = evict_count(c, p, 0, remaining as int, tx, base_fee);
    let ev = picked(c, p, k);
    let (next, r) = replace_outcome(c, remaining, tx, base_fee, p);
    if r is Replaced || r is ReplacedMultiple {
        assert(distinct_positions(c, p)) by {
            assert forall|a: int, b: int| 0 <= a < b < p.len() implies #[trigger] p[a] != #[trigger] p[b] by {
                assert(desc_before(ascending_fee_keys(c, base_fee), p[a] as int, p[b] as int));
            }
        }
        Builder::lemma_evict_count_bounds(c, p, 0, remaining as int, tx, base_fee);
        lemma_picked_removal(c, p, k, value_at_fn(base_fee));
        lemma_sum_push(remove_ids(c, id_set(ev)), tx, value_at_fn(base_fee));
    }
}

/// The incremental builder never lowers the candidate's value at the base fee:
/// whatever the result of processing a transaction, the new candidate is worth
/// at least as much as the old one.
pub proof fn lemma_process_keeps_value(b: Builder, next: Builder, tx: Tx, r: UpdateResult)
    requires
        b.wf(),
        b.processed(next, tx, r),
    ensures
        sum_value_at(next.cand_txs(), b.spec_base_fee()) >= sum_value_at(b.cand_txs(), b.spec_base_fee()),
{
    let base = b.spec_base_fee();
    let c = b.cand_txs();
    if tx.affords(base) && !has_id(c, tx.id) {
        if tx.gas_limit <= b.cand_remaining() {
            lemma_sum_push(c, tx, value_at_fn(base));
            vstd::arithmetic::mul::lemma_mul_nonnegative(tx.effective_fee(base) as int, tx.gas_limit as int);
        } else {
            let p = choose|p: Seq<usize>| is_desc_order(ascending_fee_keys(c, base), p)
                && replace_outcome(c, b.cand_remaining(), tx, base, p) == (next.cand_txs(), r);
            lemma_replacement_raises_value(c, b.cand_remaining(), tx, base, p);
        }
    }
}

/// The transactions the greedy replacement counts out from position `a` all pay
/// a lower effective fee than `tx`.
proof fn lemma_evict_count_fees(c: Seq<Tx>, p: Seq<usize>, a: int, freed: int, tx: Tx, base_fee: u64)
    requires
        0 <= a,
    ensures
        forall|j: int| a <= j < a + evict_count(c, p, a, freed, tx, base_fee) ==>
            (#[trigger] c[p[j] as int]).effective_fee(base_fee) < tx.effective_fee(base_fee),
    decreases p.len() - a,
{
    if !(a < 0 || a >= p.len() || freed >= tx.gas_limit
        || tx.effective_fee(base_fee) <= c[p[a] as int].effective_fee(base_fee)) {
        lemma_evict_count_fees(c, p, a + 1, freed + c[p[a] as int].gas_limit, tx, base_fee);
    }
}

/// A replacement evicts the lowest-fee transactions: when it happens (result
/// `Replaced` or `ReplacedMultiple`), the evicted ones (the first `k` in the fee
/// order, `k >= 1`) each pay a lower effective fee than the new transaction and
/// no more than any kept one, are worth less together than it, and the new
/// candidate is the old one without them, with the new transaction added.
pub proof fn lemma_replacement_evicts_lowest(c: Seq<Tx>, remaining: u64, tx: Tx, base_fee: u64, p: Seq<usize>)
    requires
        is_desc_order(ascending_fee_keys(c, base_fee), p),
        c.len() <= usize::MAX,
    ensures
        ({
            let k = evict_count(c, p, 0, remaining as int, tx, base_fee);
            let ev = picked(c, p, k);
            let (next, r) = replace_outcome(c, remaining, tx, base_fee, p);
            (r is Replaced || r is ReplacedMultiple) ==> {
                &&& 1 <= k <= c.len()
                &&& next == remove_ids(c, id_set(ev)).push(tx)
                &&& forall|a: int| 0 <= a < k ==> (#[trigger] c[p[a] as int]).effective_fee(base_fee) < tx.effective_fee(base_fee)
                &&& forall|a: int, b: int| 0 <= a < k <= b < c.len() ==>
                    (#[trigger] c[p[a] as int]).effective_fee(base_fee) <= (#[trigger] c[p[b] as int]).effective_fee(base_fee)
                &&& sum_value_at(ev, base_fee) < tx.spec_value_at(base_fee)
                &&& r is Replaced ==> k == 1 && r->Replaced_0 == c[p[0] as int].id
                &&& r is ReplacedMultiple ==> r->ReplacedMultiple_0 == k
            }
        }),
{
    let k = evict_count(c, p, 0, remaining as int, tx, base_fee);
    Builder::lemma_evict_count_bounds(c, p, 0, remaining as int, tx, base_fee);
    lemma_evict_count_fees(c, p, 0, remaining as int, tx, base_fee);
    let keys = ascending_fee_keys(c, base_fee);
    assert forall|a: int, b: int| 0 <= a < k <= b < c.len() implies
        (#[trigger] c[p[a] as int]).effective_fee(base_fee) <= (#[trigger] c[p[b] as int]).effective_fee(base_fee) by {
        assert(desc_before(keys, p[a] as int, p[b] as int));
    }
    let (next, r) = replace_outcome(c, remaining, tx, base_fee, p);
    if r is Replaced || r is ReplacedMultiple {
        assert(picked(c, p, k)[0] == c[p[0] as int]);
    }
}

/// What processing a transaction gives, by result. With `C` the candidate's
/// transactions, `R` its free gas and `f` the base fee: `InsufficientFee` comes
/// exactly when the transaction cannot pay `f`; `Duplicate` exactly when it can
/// and `C` holds its id; `Added` exactly when it can, is new and fits in `R`, and
/// then it is appended. A refused transaction leaves `C` as it was. A replacement
/// evicts a nonempty set `E` of transactions of `C`, each paying a lower effective
/// fee than the new one and no more than any kept one, worth less together than
/// the new one; the candidate becomes the kept ones with the new one appended,
/// and the result names the one evicted id or counts the evicted ones. Whatever
/// the result, the candidate stays within its gas limit, its gas used is the sum
/// of its transactions' gas, and no two of them share an id.
pub proof fn lemma_process_results(b: Builder, next: Builder, tx: Tx, r: UpdateResult)
    requires
        b.wf(),
        b.processed(next, tx, r),
    ensures
        ({
            let c = b.cand_txs();
            let f = b.spec_base_fee();
            &&& (r == UpdateResult::InsufficientFee) <==> !tx.affords(f)
            &&& (r == UpdateResult::Duplicate) <==> tx.affords(f) && has_id(c, tx.id)
            &&& (r == UpdateResult::Added) <==> tx.affords(f) && !has_id(c, tx.id) && tx.gas_limit <= b.cand_remaining()
            &&& r == UpdateResult::Added ==> next.cand_txs() == c.push(tx)
            &&& (r == UpdateResult::InsufficientFee || r == UpdateResult::Duplicate || r == UpdateResult::Rejected)
                ==> next.cand_txs() == c
            &&& next.spec_candidate() matches Some(blk) ==> blk.gas_used <= blk.gas_limit
                && blk.gas_used == sum_gas(blk.transactions@) && ids_distinct(blk.transactions@)
            &&& (r is Replaced || r is ReplacedMultiple) ==> exists|ev: Seq<Tx>| {
                &&& 1 <= ev.len()
                &&& forall|a: int| 0 <= a < ev.len() ==> c.contains(#[trigger] ev[a])
                &&& next.cand_txs() == remove_ids(c, id_set(ev)).push(tx)
                &&& forall|a: int| 0 <= a < ev.len() ==> (#[trigger] ev[a]).effective_fee(f) < tx.effective_fee(f)
                &&& forall|a: int, j: int| 0 <= a < ev.len() && 0 <= j < c.len() && !id_set(ev).contains(c[j].id)
                    ==> (#[trigger] ev[a]).effective_fee(f) <= (#[trigger] c[j]).effective_fee(f)
                &&& sum_value_at(ev, f) < tx.spec_value_at(f)
                &&& r is Replaced ==> ev.len() == 1 && r->Replaced_0 == ev[0].id
                &&& r is ReplacedMultiple ==> ev.len() == r->ReplacedMultiple_0 && ev.len() >= 2
            }
        }),
{
    let c = b.cand_txs();
    let f = b.spec_base_fee();
    let rem = b.cand_remaining();
    if tx.affords(f) && !has_id(c, tx.id) && tx.gas_limit > rem {
        let p = choose|p: Seq<usize>| is_desc_order(ascending_fee_keys(c, f), p)
            && replace_outcome(c, rem, tx, f, p) == (next.cand_txs(), r);
        assert(is_desc_order(ascending_fee_keys(c, f), p));
        assert(replace_outcome(c, rem, tx, f, p) == (next.cand_txs(), r));
        let k = evict_count(c, p, 0, rem as int, tx, f);
        let ev = picked(c, p, k);
        assert(r != UpdateResult::Added);
        if r is Replaced || r is ReplacedMultiple {
            assert(c.len() <= usize::MAX) by {
                assert(b.spec_candidate() is Some);
                assert(b.spec_candidate()->0.transactions.len() == c.len());
            }
            lemma_replacement_evicts_lowest(c, rem, tx, f, p);
            assert(ev.len() == k);
            assert forall|a: int| 0 <= a < ev.len() implies c.contains(#[trigger] ev[a]) by {
                assert(ev[a] == c[p[a] as int]);
            }
            assert forall|a: int| 0 <= a < ev.len() implies (#[trigger] ev[a]).effective_fee(f) < tx.effective_fee(f) by {
                assert(ev[a] == c[p[a] as int]);
            }
            assert forall|a: int, j: int| 0 <= a < ev.len() && 0 <= j < c.len() && !id_set(ev).contains(c[j].id)
                implies (#[trigger] ev[a]).effective_fee(f) <= (#[trigger] c[j]).effective_fee(f) by {
                assert(p.len() == c.len());
                assert(p.contains(j as usize));
                let bb = choose|bb: int| 0 <= bb < p.len() && p[bb] == j as usize;
                if bb < k {
                    assert(ev[bb] == c[p[bb] as int]);
                    assert(ev[bb].id == c[j].id);
                    assert(has_id(ev, c[j].id));
                    assert(id_set(ev).contains(c[j].id));
                }
                assert(ev[a] == c[p[a] as int]);
                assert(c[p[bb] as int] == c[j]);
            }
            if r is Replaced {
                assert(ev[0] == c[p[0] as int]);
            }
            assert({
                &&& 1 <= ev.len()
                &&& forall|a: int| 0 <= a < ev.len() ==> c.contains(#[trigger] ev[a])
                &&& next.cand_txs() == remove_ids(c, id_set(ev)).push(tx)
                &&& forall|a: int| 0 <= a < ev.len() ==> (#[trigger] ev[a]).effective_fee(f) < tx.effective_fee(f)
                &&& forall|a: int, j: int| 0 <= a < ev.len() && 0 <= j < c.len() && !id_set(ev).contains(c[j].id)
                    ==> (#[trigger] ev[a]).effective_fee(f) <= (#[trigger] c[j]).effective_fee(f)
                &&& sum_value_at(ev, f) < tx.spec_value_at(f)
                &&& r is Replaced ==> ev.len() == 1 && r->Replaced_0 == ev[0].id
                &&& r is ReplacedMultiple ==> ev.len() == r->ReplacedMultiple_0 && ev.len() >= 2
            });
        }
    }
}

/// Every transaction greedy packing keeps comes from the sequence.
proof fn lemma_greedy_from(s: Seq<Tx>, limit: int)
    ensures
        forall|x: int| 0 <= x < greedy_pack(s, limit).len() ==> s.contains(#[trigger] greedy_pack(s, limit)[x]),
    decreases s.len(),
{
    if s.len() > 0 {
        lemma_greedy_from(s.drop_last(), limit);
        let prev = greedy_pack(s.drop_last(), limit);
        assert forall|x: int| 0 <= x < greedy_pack(s, limit).len() implies s.contains(#[trigger] greedy_pack(s, limit)[x]) by {
            if x < prev.len() {
                assert(greedy_pack(s, limit)[x] == prev[x]);
                let k = choose|k: int| 0 <= k < s.drop_last().len() && s.drop_last()[k] == prev[x];
                assert(s[k] == prev[x]);
            } else {
                assert(s[s.len() - 1] == s.last());
            }
        }
    }
}

/// The gas greedy packing has used never falls as it goes on.
proof fn lemma_greedy_gas_grows(s: Seq<Tx>, limit: int, j: int, m: int)
    requires
        0 <= j <= m <= s.len(),
    ensures
        sum_gas(greedy_pack(s.take(j), limit)) <= sum_gas(greedy_pack(s.take(m), limit)),
    decreases m - j,
{
    if j < m {
        lemma_greedy_gas_grows(s, limit, j, m - 1);
        let t = s.take(m);
        assert(t.drop_last() =~= s.take(m - 1));
        lemma_sum_push(greedy_pack(s.take(m - 1), limit), t.last(), gas_fn());
    }
}

/// Greedy packing keeps the order it is given and skips only what does not fit:
/// over transactions whose priority fees never rise, the packed fees never rise;
/// and a transaction it skips would not fit even in what the finished block has
/// left.
pub proof fn lemma_greedy_pack_laws(s: Seq<Tx>, limit: int)
    ensures
        (forall|i: int, j: int| 0 <= i < j < s.len() ==> #[trigger] s[i].priority_fee_gwei >= #[trigger] s[j].priority_fee_gwei)
            ==> forall|i: int, j: int| 0 <= i < j < greedy_pack(s, limit).len() ==>
                #[trigger] greedy_pack(s, limit)[i].priority_fee_gwei >= #[trigger] greedy_pack(s, limit)[j].priority_fee_gwei,
        forall|j: int| 0 <= j < s.len() && #[trigger] greedy_pack(s.take(j + 1), limit) == greedy_pack(s.take(j), limit)
            ==> sum_gas(greedy_pack(s, limit)) + s[j].gas_limit > limit,
    decreases s.len(),
{
    if s.len() > 0 {
        let d = s.drop_last();
        lemma_greedy_pack_laws(d, limit);
        let prev = greedy_pack(d, limit);
        let gp = greedy_pack(s, limit);
        if forall|i: int, j: int| 0 <= i < j < s.len() ==> #[trigger] s[i].priority_fee_gwei >= #[trigger] s[j].priority_fee_gwei {
            assert forall|i: int, j: int| 0 <= i < j < d.len() implies #[trigger] d[i].priority_fee_gwei >= #[trigger] d[j].priority_fee_gwei by {
                assert(s[i].priority_fee_gwei >= s[j].priority_fee_gwei);
            }
            lemma_greedy_from(d, limit);
            assert forall|i: int, j: int| 0 <= i < j < gp.len() implies
                #[trigger] gp[i].priority_fee_gwei >= #[trigger] gp[j].priority_fee_gwei by {
                if j < prev.len() {
                    assert(gp[i] == prev[i] && gp[j] == prev[j]);
                } else {
                    assert(gp[i] == prev[i]);
                    assert(d.contains(prev[i]));
                    let k = choose|k: int| 0 <= k < d.len() && d[k] == prev[i];
                    assert(s[k] == prev[i]);
                    assert(s[s.len() - 1] == gp[j]);
                    assert(s[k].priority_fee_gwei >= s[s.len() - 1].priority_fee_gwei);
                }
            }
        }
        assert(s.take(s.len() as int) =~= s);
        assert forall|j: int| 0 <= j < s.len() && #[trigger] greedy_pack(s.take(j + 1), limit) == greedy_pack(s.take(j), limit)
            implies sum_gas(gp) + s[j].gas_limit > limit by {
            let t = s.take(j + 1);
            assert(t.drop_last() =~= s.take(j));
            assert(t.last() == s[j]);
            if sum_gas(greedy_pack(s.take(j), limit)) + s[j].gas_limit <= limit {
                assert(greedy_pack(t, limit) == greedy_pack(s.take(j), limit).push(s[j]));
                assert(greedy_pack(t, limit).len() == greedy_pack(s.take(j), limit).len() + 1);
            }
            lemma_greedy_gas_grows(s, limit, j, s.len() as int);
        }
    }
}

/// The transactions at the positions `p` lists, in that order.
pub open spec fn in_order(txs: Seq<Tx>, p: Seq<usize>) -> Seq<Tx> {
    p.map_values(|k: usize| txs[k as int])
}

/// The stable density order lists transactions with priority fees that never rise.
pub proof fn lemma_density_order_fees(txs: Seq<Tx>, p: Seq<usize>)
    requires
        is_desc_order(descending_density_keys(txs), p),
    ensures
        forall|i: int, j: int| 0 <= i < j < p.len() ==>
            #[trigger] in_order(txs, p)[i].priority_fee_gwei >= #[trigger] in_order(txs, p)[j].priority_fee_gwei,
{
    let keys = descending_density_keys(txs);
    assert forall|i: int, j: int| 0 <= i < j < p.len() implies
        #[trigger] in_order(txs, p)[i].priority_fee_gwei >= #[trigger] in_order(txs, p)[j].priority_fee_gwei by {
        assert(desc_before(keys, p[i] as int, p[j] as int));
    }
}

/// What greedy packing has taken stays taken as it goes on.
proof fn lemma_greedy_keeps(s: Seq<Tx>, limit: int, j: int, m: int, x: Tx)
    requires
        0 <= j <= m <= s.len(),
        greedy_pack(s.take(j), limit).contains(x),
    ensures
        greedy_pack(s.take(m), limit).contains(x),
    decreases m - j,
{
    if j < m {
        lemma_greedy_keeps(s, limit, j, m - 1, x);
        let t = s.take(m);
        assert(t.drop_last() =~= s.take(m - 1));
        let prev = greedy_pack(s.take(m - 1), limit);
        let k = choose|k: int| 0 <= k < prev.len() && #[trigger] prev[k] == x;
        assert(greedy_pack(t, limit)[k] == x);
    }
}

/// Greedy packing in the stable fee order `p` of `txs` (the order `build_greedy`
/// packs in): the packed transactions' priority fees never rise, and every
/// transaction left out would not fit in the gas the packed block leaves.
pub proof fn lemma_density_pack_laws(txs: Seq<Tx>, p: Seq<usize>, limit: int)
    requires
        is_desc_order(descending_density_keys(txs), p),
        txs.len() <= usize::MAX,
    ensures
        forall|i: int, j: int| 0 <= i < j < greedy_pack(in_order(txs, p), limit).len() ==>
            #[trigger] greedy_pack(in_order(txs, p), limit)[i].priority_fee_gwei
                >= #[trigger] greedy_pack(in_order(txs, p), limit)[j].priority_fee_gwei,
        forall|j: int| 0 <= j < txs.len() && !greedy_pack(in_order(txs, p), limit).contains(#[trigger] txs[j])
            ==> sum_gas(greedy_pack(in_order(txs, p), limit)) + txs[j].gas_limit > limit,
{
    let ordered = in_order(txs, p);
    let gp = greedy_pack(ordered, limit);
    lemma_density_order_fees(txs, p);
    lemma_greedy_pack_laws(ordered, limit);
    assert(ordered.take(ordered.len() as int) =~= ordered);
    assert forall|j: int| 0 <= j < txs.len() && !gp.contains(#[trigger] txs[j])
        implies sum_gas(gp) + txs[j].gas_limit > limit by {
        assert(p.contains(j as usize));
        let a = choose|a: int| 0 <= a < p.len() && #[trigger] p[a] == j as usize;
        assert(p[a] as int == j);
        assert(ordered.len() == p.len());
        assert(ordered[a] == txs[p[a] as int]);
        assert(ordered[a] == txs[j]);
        let t = ordered.take(a + 1);
        assert(t.drop_last() =~= ordered.take(a));
        assert(t.last() == ordered[a]);
        if greedy_pack(t, limit) != greedy_pack(ordered.take(a), limit) {
            let g = greedy_pack(t, limit);
            assert(g[g.len() - 1] == txs[j]);
            lemma_greedy_keeps(ordered, limit, a + 1, ordered.len() as int, txs[j]);
        }
    }
}

/// One operation of the builder takes `b` to `next`: processing a transaction,
/// sealing, setting the base fee, or finalising without handing the block out.
pub open spec fn builder_step(b: Builder, next: Builder) -> bool {
    ||| exists|tx: Tx, r: UpdateResult| #[trigger] b.processed(next, tx, r)
    ||| b.sealed(next, b.spec_candidate())
    ||| {
        &&& next.spec_gas_limit() == b.spec_gas_limit()
        &&& next.spec_next_number() == b.spec_next_number()
        &&& next.spec_candidate() == b.spec_candidate()
        &&& next.spec_stats() == b.spec_stats()
    }
    ||| {
        &&& next.spec_candidate() is None
        &&& next.spec_next_number() == b.spec_next_number() + 1
        &&& next.spec_stats() == IncrementalStats::zero()
        &&& next.spec_gas_limit() == b.spec_gas_limit()
    }
}

/// The operation at position `i` of a run takes its builder to the next one.
pub open spec fn steps_at(tr: Seq<Builder>, i: int) -> bool {
    builder_step(tr[i], tr[i + 1])
}

/// Over any run of builder operations from a consistent builder with gas limit
/// `g` and block number `s`, the builder stays consistent, keeps the gas limit,
/// never goes below block `s`, and its candidate (if any) carries the builder's
/// block number and the gas limit `g`.
pub proof fn lemma_builder_run(tr: Seq<Builder>, g: u64, s: u64)
    requires
        tr.len() >= 1,
        tr[0].wf(),
        tr[0].spec_gas_limit() == g,
        tr[0].spec_next_number() == s,
        forall|i: int| 0 <= i < tr.len() - 1 ==> #[trigger] steps_at(tr, i),
    ensures
        forall|i: int| 0 <= i < tr.len() ==> {
            &&& (#[trigger] tr[i]).wf()
            &&& tr[i].spec_gas_limit() == g
            &&& tr[i].spec_next_number() >= s
            &&& tr[i].spec_candidate() matches Some(c) ==> c.number == tr[i].spec_next_number() && c.gas_limit == g
        },
    decreases tr.len(),
{
    if tr.len() > 1 {
        let d = tr.drop_last();
        assert forall|i: int| 0 <= i < d.len() - 1 implies #[trigger] steps_at(d, i) by {
            assert(steps_at(tr, i));
            assert(d[i] == tr[i] && d[i + 1] == tr[i + 1]);
        }
        lemma_builder_run(d, g, s);
        let n = tr.len() - 1;
        let b = tr[n - 1];
        assert(b == d[n - 1]);
        assert(steps_at(tr, n - 1));
        assert(builder_step(tr[n - 1], tr[n]));
        assert(IncrementalStats::zero().counted());
        assert forall|i: int| 0 <= i < tr.len() implies {
            &&& (#[trigger] tr[i]).wf()
            &&& tr[i].spec_gas_limit() == g
            &&& tr[i].spec_next_number() >= s
            &&& tr[i].spec_candidate() matches Some(c) ==> c.number == tr[i].spec_next_number() && c.gas_limit == g
        } by {
            if i < n {
                assert(tr[i] == d[i]);
            }
        }
    }
}

} // verus!
