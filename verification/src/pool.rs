use vstd::prelude::*;
use crate::tx::{Tx, TxId};
use crate::seqs::{
    has_id, ids_distinct, first_id_index, sum_gas, sum_value, remove_ids, gas_fn, value_fn,
    lemma_first_id_index, lemma_first_id_index_is, lemma_sum_push, lemma_sum_nonneg, contains_id, tx_sum,
};
use crate::order::{sort_desc, is_desc_order, desc_before};
use crate::bundle::{lemma_prefix_sum, lemma_prefix_le};
use crate::lookahead::lemma_sum_permuted;

verus! {

/// Pool pressure level.
#[derive(Debug, Clone, Copy, PartialEq, Eq, Structural)]
pub enum PoolPressure {
    /// Below 50% capacity
    Low,
    /// 50-80% capacity
    Medium,
    /// Above 80% capacity
    High,
    /// At or near capacity (95% and above)
    Critical,
}

impl Default for PoolPressure {
    fn default() -> (p: Self)
        ensures
            p == PoolPressure::Low,
    {
        PoolPressure::Low
    }
}

/// Pressure of a pool holding `len` of at most `max` transactions: by the fill
/// ratio `len / max` against 95%, 80% and 50%. An empty pool of capacity zero is
/// at low pressure, a non-empty one at critical pressure.
pub open spec fn pressure_of(len: int, max: int) -> PoolPressure {
    if max == 0 {
        if len == 0 { PoolPressure::Low } else { PoolPressure::Critical }
    } else if 100 * len >= 95 * max {
        PoolPressure::Critical
    } else if 100 * len >= 80 * max {
        PoolPressure::High
    } else if 100 * len >= 50 * max {
        PoolPressure::Medium
    } else {
        PoolPressure::Low
    }
}

/// Keys that order transactions by priority fee, lowest first (in a stable
/// descending order of the keys).
pub open spec fn ascending_density_keys(s: Seq<Tx>) -> Seq<u128> {
    s.map_values(|t: Tx| (u64::MAX - t.priority_fee_gwei) as u128)
}

/// Keys that order transactions by priority fee, highest first.
pub open spec fn descending_density_keys(s: Seq<Tx>) -> Seq<u128> {
    s.map_values(|t: Tx| t.priority_fee_gwei as u128)
}

/// Keys that order transactions by value, highest first.
pub open spec fn descending_value_keys(s: Seq<Tx>) -> Seq<u128> {
    s.map_values(|t: Tx| t.spec_value() as u128)
}

/// The rank, among `n` ascending values, that the `pct`-th percentile picks:
/// `pct / 100 * (n - 1)` rounded half up, at most `n - 1`.
pub open spec fn percentile_rank(n: int, pct: int) -> int {
    let r = ((n - 1) * pct + 50) / 100;
    if r < n - 1 { r } else { n - 1 }
}

/// `v` is the `pct`-th percentile of the priority fees of `s`.
pub open spec fn is_percentile(s: Seq<Tx>, pct: int, v: u64) -> bool {
    exists|p: Seq<usize>| is_desc_order(ascending_density_keys(s), p)
        && v == s[p[percentile_rank(s.len() as int, pct)] as int].priority_fee_gwei
}

/// One for a transaction paying a priority fee below `v`.
pub open spec fn fee_below(v: u64) -> spec_fn(Tx) -> int {
    |t: Tx| if t.priority_fee_gwei < v { 1int } else { 0int }
}

/// One for a transaction paying a priority fee of at most `v`.
pub open spec fn fee_at_most(v: u64) -> spec_fn(Tx) -> int {
    |t: Tx| if t.priority_fee_gwei <= v { 1int } else { 0int }
}

/// None of the transactions pays below `v`, so none is counted.
proof fn lemma_none_below(q: Seq<Tx>, v: u64)
    requires
        forall|i: int| 0 <= i < q.len() ==> #[trigger] q[i].priority_fee_gwei >= v,
    ensures
        tx_sum(q, fee_below(v)) == 0,
    decreases q.len(),
{
    if q.len() > 0 {
        let d = q.drop_first();
        assert forall|i: int| 0 <= i < d.len() implies #[trigger] d[i].priority_fee_gwei >= v by {
            assert(d[i] == q[i + 1]);
        }
        lemma_none_below(d, v);
    }
}

/// In transactions sorted by rising fee, with fee `v` at position `r`: at most
/// `r` pay below `v`, and at least `r + 1` pay no more than `v`.
proof fn lemma_sorted_counts(q: Seq<Tx>, v: u64, r: int)
    requires
        0 <= r < q.len(),
        forall|a: int, b: int| 0 <= a < b < q.len() ==> #[trigger] q[a].priority_fee_gwei <= #[trigger] q[b].priority_fee_gwei,
        q[r].priority_fee_gwei == v,
    ensures
        tx_sum(q, fee_below(v)) <= r,
        tx_sum(q, fee_at_most(v)) >= r + 1,
    decreases r,
{
    let d = q.drop_first();
    assert forall|t: Tx| #[trigger] fee_at_most(v)(t) >= 0 by {}
    if r == 0 {
        assert forall|i: int| 0 <= i < d.len() implies #[trigger] d[i].priority_fee_gwei >= v by {
            assert(d[i] == q[i + 1]);
            assert(q[0].priority_fee_gwei <= q[i + 1].priority_fee_gwei);
        }
        lemma_none_below(d, v);
        lemma_sum_nonneg(d, fee_at_most(v));
    } else {
        assert forall|a: int, b: int| 0 <= a < b < d.len() implies #[trigger] d[a].priority_fee_gwei <= #[trigger] d[b].priority_fee_gwei by {
            assert(d[a] == q[a + 1] && d[b] == q[b + 1]);
        }
        assert(d[r - 1] == q[r]);
        lemma_sorted_counts(d, v, r - 1);
        assert(q[0].priority_fee_gwei <= q[r].priority_fee_gwei);
    }
}

/// The `pct`-th percentile fee `v` of `n` transactions is one of their fees and
/// splits them from the low end: at most `((n - 1) * pct + 50) / 100` of them
/// (about `pct` percent) pay less than `v`, and more than that many pay no more
/// than `v`. So the 10th percentile lets about nine in ten transactions through.
pub proof fn lemma_percentile_counts(s: Seq<Tx>, pct: int, v: u64)
    requires
        0 < s.len() <= usize::MAX,
        0 <= pct <= 100,
        is_percentile(s, pct, v),
    ensures
        exists|j: int| 0 <= j < s.len() && #[trigger] s[j].priority_fee_gwei == v,
        tx_sum(s, fee_below(v)) * 100 <= (s.len() - 1) * pct + 50,
        tx_sum(s, fee_at_most(v)) * 100 > (s.len() - 1) * pct + 50,
{
    let n = s.len() as int;
    let keys = ascending_density_keys(s);
    let p = choose|p: Seq<usize>| is_desc_order(keys, p)
        && v == s[p[percentile_rank(n, pct)] as int].priority_fee_gwei;
    let r = percentile_rank(n, pct);
    let x = (n - 1) * pct + 50;
    assert(0 <= (n - 1) * pct <= (n - 1) * 100) by (nonlinear_arith)
        requires
            0 <= pct <= 100,
            n >= 1;
    assert(x / 100 <= n - 1);
    assert(r == x / 100);
    assert(r * 100 <= x < r * 100 + 100);
    assert(0 <= r < n);
    assert forall|a: int, b: int| 0 <= a < b < p.len() implies #[trigger] p[a] != #[trigger] p[b] by {
        assert(desc_before(keys, p[a] as int, p[b] as int));
    }
    let q = Seq::new(p.len(), |a: int| s[p[a] as int]);
    assert forall|a: int, b: int| 0 <= a < b < q.len() implies #[trigger] q[a].priority_fee_gwei <= #[trigger] q[b].priority_fee_gwei by {
        assert(desc_before(keys, p[a] as int, p[b] as int));
        assert(keys[p[a] as int] == (u64::MAX - s[p[a] as int].priority_fee_gwei) as u128);
        assert(keys[p[b] as int] == (u64::MAX - s[p[b] as int].priority_fee_gwei) as u128);
    }
    assert(q[r].priority_fee_gwei == v);
    lemma_sorted_counts(q, v, r);
    lemma_sum_permuted(s, p, fee_below(v));
    lemma_sum_permuted(s, p, fee_at_most(v));
    assert(0 <= p[r] < n);
    assert(s[p[r] as int].priority_fee_gwei == v);
}

/// The admission threshold that a pool holding `s` of at most `max` transactions
/// sets after a change, from the fee percentile that its pressure calls for; it
/// keeps `prev` when it holds nothing to take a percentile of.
pub open spec fn threshold_rule(s: Seq<Tx>, max: int, prev: u64, v: u64) -> bool {
    match pressure_of(s.len() as int, max) {
        PoolPressure::Low => v == 0,
        PoolPressure::Medium => if s.len() == 0 { v == prev } else { is_percentile(s, 10, v) },
        PoolPressure::High => if s.len() == 0 { v == prev } else { is_percentile(s, 25, v) },
        PoolPressure::Critical => if s.len() == 0 { v == prev } else { is_percentile(s, 50, v) },
    }
}

/// The admission threshold a pool sets lets most of what it holds through: with
/// `n` held transactions, none is refused at low pressure, and at most about
/// 10%, 25% or 50% of them (`((n - 1) * pct + 50) / 100`) pay a priority fee
/// below the threshold at medium, high or critical pressure; the threshold is
/// the fee of one of them.
pub proof fn lemma_threshold_admits_most(s: Seq<Tx>, max: int, prev: u64, v: u64)
    requires
        0 < s.len() <= usize::MAX,
        threshold_rule(s, max, prev, v),
    ensures
        ({
            let n = s.len() as int;
            let below = tx_sum(s, fee_below(v));
            match pressure_of(n, max) {
                PoolPressure::Low => v == 0,
                PoolPressure::Medium => below * 100 <= (n - 1) * 10 + 50,
                PoolPressure::High => below * 100 <= (n - 1) * 25 + 50,
                PoolPressure::Critical => below * 100 <= (n - 1) * 50 + 50,
            }
        }),
        pressure_of(s.len() as int, max) != PoolPressure::Low ==>
            exists|j: int| 0 <= j < s.len() && #[trigger] s[j].priority_fee_gwei == v,
{
    match pressure_of(s.len() as int, max) {
        PoolPressure::Low => {},
        PoolPressure::Medium => lemma_percentile_counts(s, 10, v),
        PoolPressure::High => lemma_percentile_counts(s, 25, v),
        PoolPressure::Critical => lemma_percentile_counts(s, 50, v),
    }
}

/// `k` is the first position of a lowest priority fee in `s`.
pub open spec fn is_first_min(s: Seq<Tx>, k: int) -> bool {
    &&& 0 <= k < s.len()
    &&& forall|j: int| 0 <= j < s.len() ==> s[k].priority_fee_gwei <= #[trigger] s[j].priority_fee_gwei
    &&& forall|j: int| 0 <= j < k ==> s[k].priority_fee_gwei < #[trigger] s[j].priority_fee_gwei
}

/// `r` lists the transactions of `s` in the stable order of `keys` (a permutation).
pub open spec fn listed_in_order<'a>(s: Seq<Tx>, keys: Seq<u128>, r: Seq<&'a Tx>) -> bool {
    exists|p: Seq<usize>| is_desc_order(keys, p) && r.len() == s.len()
        && forall|a: int| 0 <= a < r.len() ==> r[a] == s[#[trigger] p[a] as int]
}

/// Position of the first lowest priority fee; `None` for an empty vector.
pub fn first_min_fee(txs: &Vec<Tx>) -> (k: Option<usize>)
    ensures
        k is None <==> txs@.len() == 0,
        k matches Some(k) ==> is_first_min(txs@, k as int),
{
    let n = txs.len();
    if n == 0 {
        return None;
    }
    let mut best: usize = 0;
    let mut i: usize = 1;
    while i < n
        invariant
            n == txs@.len(),
            0 <= best < i <= n,
            forall|j: int| 0 <= j < i ==> txs@[best as int].priority_fee_gwei <= #[trigger] txs@[j].priority_fee_gwei,
            forall|j: int| 0 <= j < best ==> txs@[best as int].priority_fee_gwei < #[trigger] txs@[j].priority_fee_gwei,
        decreases n - i,
    {
        if txs[i].priority_fee_gwei < txs[best].priority_fee_gwei {
            best = i;
        }
        i = i + 1;
    }
    Some(best)
}

/// The `pct`-th percentile of the priority fees of a non-empty vector.
pub fn percentile_fee(txs: &Vec<Tx>, pct: u64) -> (v: u64)
    requires
        txs@.len() > 0,
        pct <= 100,
    ensures
        is_percentile(txs@, pct as int, v),
        exists|j: int| 0 <= j < txs@.len() && #[trigger] txs@[j].priority_fee_gwei == v,
        tx_sum(txs@, fee_below(v)) * 100 <= (txs@.len() - 1) * pct + 50,
        tx_sum(txs@, fee_at_most(v)) * 100 > (txs@.len() - 1) * pct + 50,
{
    let n = txs.len();
    let mut keys: Vec<u128> = Vec::new();
    let mut i: usize = 0;
    while i < n
        invariant
            n == txs@.len(),
            i <= n,
            keys@.len() == i,
            forall|j: int| 0 <= j < i ==> #[trigger] keys@[j] == ascending_density_keys(txs@)[j],
        decreases n - i,
    {
        keys.push((u64::MAX - txs[i].priority_fee_gwei) as u128);
        i = i + 1;
    }
    assert(keys@ =~= ascending_density_keys(txs@));
    let order = sort_desc(&keys);
    let nm1: u128 = (n - 1) as u128;
    let pc: u128 = pct as u128;
    assert(nm1 * pc <= nm1 * 100) by (nonlinear_arith)
        requires
            pc <= 100,
    ;
    let r128: u128 = (nm1 * pc + 50) / 100;
    let rank: usize = if r128 < (n - 1) as u128 { r128 as usize } else { n - 1 };
    assert(rank == percentile_rank(n as int, pct as int));
    let v = txs[order[rank]].priority_fee_gwei;
    proof {
        assert(is_percentile(txs@, pct as int, v));
        lemma_percentile_counts(txs@, pct as int, v);
    }
    v
}

/// A pool of pending transactions awaiting inclusion in a block.
#[derive(Debug)]
pub struct Pool {
    /// All transactions, at most one per id, in arrival order
    txs: Vec<Tx>,
    /// Maximum number of transactions to hold
    max_size: usize,
    /// Minimum priority fee admitted under pressure
    min_density_threshold: u64,
    /// Stats tracking
    total_inserted: u64,
    total_evicted: u64,
    total_rejected: u64,
}

impl Pool {
    /// The transactions held, in arrival order.
    pub closed spec fn spec_txs(&self) -> Seq<Tx> {
        self.txs@
    }

    /// Capacity.
    pub closed spec fn spec_max_size(&self) -> usize {
        self.max_size
    }

    /// Minimum priority fee admitted under pressure.
    pub closed spec fn spec_threshold(&self) -> u64 {
        self.min_density_threshold
    }

    /// Transactions inserted so far.
    pub closed spec fn spec_inserted(&self) -> u64 {
        self.total_inserted
    }

    /// Transactions evicted so far.
    pub closed spec fn spec_evicted(&self) -> u64 {
        self.total_evicted
    }

    /// Transactions rejected so far.
    pub closed spec fn spec_rejected(&self) -> u64 {
        self.total_rejected
    }

    /// No two transactions share an id.
    pub open spec fn wf(&self) -> bool {
        ids_distinct(self.spec_txs())
    }

    /// Current pressure.
    pub open spec fn spec_pressure(&self) -> PoolPressure {
        pressure_of(self.spec_txs().len() as int, self.spec_max_size() as int)
    }

    /// Create a new empty pool.
    pub fn new(max_size: usize) -> (p: Self)
        ensures
            p.wf(),
            p.spec_txs() == Seq::<Tx>::empty(),
            p.spec_max_size() == max_size,
            p.spec_threshold() == 0,
            p.spec_inserted() == 0,
            p.spec_evicted() == 0,
            p.spec_rejected() == 0,
    {
        Pool {
            txs: Vec::new(),
            max_size,
            min_density_threshold: 0,
            total_inserted: 0,
            total_evicted: 0,
            total_rejected: 0,
        }
    }

    /// Number of transactions in the pool.
    pub fn len(&self) -> (n: usize)
        ensures
            n == self.spec_txs().len(),
    {
        self.txs.len()
    }

    /// Capacity of the pool.
    pub fn max_size(&self) -> (m: usize)
        ensures
            m == self.spec_max_size(),
    {
        self.max_size
    }

    /// Whether the pool is empty.
    pub fn is_empty(&self) -> (b: bool)
        ensures
            b == (self.spec_txs().len() == 0),
    {
        self.txs.len() == 0
    }

    /// Whether the pool is at capacity.
    pub fn is_full(&self) -> (b: bool)
        ensures
            b == (self.spec_txs().len() >= self.spec_max_size()),
    {
        self.txs.len() >= self.max_size
    }

    /// Current pressure level.
    pub fn pressure(&self) -> (p: PoolPressure)
        ensures
            p == self.spec_pressure(),
    {
        let len = self.txs.len() as u128;
        let max = self.max_size as u128;
        if max == 0 {
            if len == 0 { PoolPressure::Low } else { PoolPressure::Critical }
        } else if 100 * len >= 95 * max {
            PoolPressure::Critical
        } else if 100 * len >= 80 * max {
            PoolPressure::High
        } else if 100 * len >= 50 * max {
            PoolPressure::Medium
        } else {
            PoolPressure::Low
        }
    }

    /// Insert a transaction. A transaction whose id is already held replaces the
    /// held one. Under pressure, one below the threshold fee is rejected. When the
    /// pool is full, a transaction with a higher fee than the lowest held evicts it;
    /// otherwise it is rejected. Returns the transaction when rejected.
    pub fn insert(&mut self, tx: Tx) -> (r: Option<Tx>)
        requires
            old(self).wf(),
            old(self).spec_inserted() < u64::MAX,
            old(self).spec_evicted() < u64::MAX,
            old(self).spec_rejected() < u64::MAX,
        ensures
            final(self).wf(),
            final(self).spec_max_size() == old(self).spec_max_size(),
            0 < old(self).spec_max_size() && old(self).spec_txs().len() <= old(self).spec_max_size()
                ==> final(self).spec_txs().len() <= final(self).spec_max_size(),
            r matches Some(x) ==> x == tx,
            r is None ==> has_id(final(self).spec_txs(), tx.id)
                && final(self).spec_txs()[first_id_index(final(self).spec_txs(), tx.id)] == tx,
            has_id(old(self).spec_txs(), tx.id) ==> {
                &&& r is None
                &&& final(self).spec_txs() == old(self).spec_txs().update(first_id_index(old(self).spec_txs(), tx.id), tx)
                &&& final(self).spec_threshold() == old(self).spec_threshold()
                &&& final(self).spec_inserted() == old(self).spec_inserted()
                &&& final(self).spec_evicted() == old(self).spec_evicted()
                &&& final(self).spec_rejected() == old(self).spec_rejected()
            },
            !has_id(old(self).spec_txs(), tx.id) && old(self).spec_pressure() != PoolPressure::Low
                && tx.priority_fee_gwei < old(self).spec_threshold() ==> {
                &&& r == Some(tx)
                &&& final(self).spec_txs() == old(self).spec_txs()
                &&& final(self).spec_threshold() == old(self).spec_threshold()
                &&& final(self).spec_inserted() == old(self).spec_inserted()
                &&& final(self).spec_evicted() == old(self).spec_evicted()
                &&& final(self).spec_rejected() == old(self).spec_rejected() + 1
            },
            !has_id(old(self).spec_txs(), tx.id) && !(old(self).spec_pressure() != PoolPressure::Low
                && tx.priority_fee_gwei < old(self).spec_threshold()) ==> {
                let s = old(self).spec_txs();
                if s.len() >= old(self).spec_max_size() && s.len() > 0 {
                    exists|k: int| is_first_min(s, k) && if tx.priority_fee_gwei > s[k].priority_fee_gwei {
                        &&& r is None
                        &&& final(self).spec_txs() == s.remove(k).push(tx)
                        &&& final(self).spec_inserted() == old(self).spec_inserted() + 1
                        &&& final(self).spec_evicted() == old(self).spec_evicted() + 1
                        &&& final(self).spec_rejected() == old(self).spec_rejected()
                        &&& threshold_rule(final(self).spec_txs(), final(self).spec_max_size() as int, 0, final(self).spec_threshold())
                    } else {
                        &&& r == Some(tx)
                        &&& final(self).spec_txs() == s
                        &&& final(self).spec_threshold() == old(self).spec_threshold()
                        &&& final(self).spec_inserted() == old(self).spec_inserted()
                        &&& final(self).spec_evicted() == old(self).spec_evicted()
                        &&& final(self).spec_rejected() == old(self).spec_rejected() + 1
                    }
                } else {
                    &&& r is None
                    &&& final(self).spec_txs() == s.push(tx)
                    &&& final(self).spec_inserted() == old(self).spec_inserted() + 1
                    &&& final(self).spec_evicted() == old(self).spec_evicted()
                    &&& final(self).spec_rejected() == old(self).spec_rejected()
                    &&& threshold_rule(final(self).spec_txs(), final(self).spec_max_size() as int, 0, final(self).spec_threshold())
                }
            },
    {
        proof {
            lemma_first_id_index(self.txs@, tx.id);
        }
        if contains_id(&self.txs, tx.id) {
            let k = self.find_index(tx.id);
            self.txs.set(k, tx);
            proof {
                assert forall|a: int, b: int| 0 <= a < self.txs@.len() && 0 <= b < self.txs@.len() && a != b
                    implies #[trigger] self.txs@[a].id != #[trigger] self.txs@[b].id by {
                    if a != k && b != k {
                        assert(self.txs@[a] == old(self).txs@[a] && self.txs@[b] == old(self).txs@[b]);
                    } else if a == k {
                        assert(self.txs@[b] == old(self).txs@[b]);
                        assert(old(self).txs@[k as int].id == tx.id);
                    } else {
                        assert(self.txs@[a] == old(self).txs@[a]);
                        assert(old(self).txs@[k as int].id == tx.id);
                    }
                }
                lemma_distinct_find(self.txs@, k as int);
            }
            return None;
        }
        if self.pressure() != PoolPressure::Low {
            if tx.priority_fee_gwei < self.min_density_threshold {
                self.total_rejected = self.total_rejected + 1;
                return Some(tx);
            }
        }
        let ghost s = self.txs@;
        if self.is_full() {
            if let Some(w) = first_min_fee(&self.txs) {
                if tx.priority_fee_gwei > self.txs[w].priority_fee_gwei {
                    self.txs.remove(w);
                    self.total_evicted = self.total_evicted + 1;
                    proof {
                        assert forall|a: int, b: int| 0 <= a < self.txs@.len() && 0 <= b < self.txs@.len() && a != b
                            implies #[trigger] self.txs@[a].id != #[trigger] self.txs@[b].id by {
                            let a2 = if a < w { a } else { a + 1 };
                            let b2 = if b < w { b } else { b + 1 };
                            assert(self.txs@[a] == s[a2] && self.txs@[b] == s[b2]);
                        }
                    }
                    self.update_threshold();
                } else {
                    self.total_rejected = self.total_rejected + 1;
                    return Some(tx);
                }
            }
        }
        let ghost mid = self.txs@;
        proof {
            assert(!has_id(mid, tx.id)) by {
                if has_id(mid, tx.id) {
                    let j = choose|j: int| 0 <= j < mid.len() && #[trigger] mid[j].id == tx.id;
                    if s.len() >= old(self).max_size && s.len() > 0 {
                        let w = choose|w: int| is_first_min(s, w);
                    }
                    assert(s.contains(mid[j])) by {
                        if mid.len() < s.len() {
                            let w = choose|w: int| 0 <= w < s.len() && mid == s.remove(w);
                            if j < w { assert(mid[j] == s[j]); } else { assert(mid[j] == s[j + 1]); }
                        } else {
                            assert(mid[j] == s[j]);
                        }
                    }
                    let i = choose|i: int| 0 <= i < s.len() && s[i] == mid[j];
                    assert(s[i].id == tx.id);
                }
            }
        }
        self.txs.push(tx);
        self.total_inserted = self.total_inserted + 1;
        proof {
            assert forall|a: int, b: int| 0 <= a < self.txs@.len() && 0 <= b < self.txs@.len() && a != b
                implies #[trigger] self.txs@[a].id != #[trigger] self.txs@[b].id by {
                if a == mid.len() {
                    assert(self.txs@[b] == mid[b]);
                } else if b == mid.len() {
                    assert(self.txs@[a] == mid[a]);
                } else {
                    assert(self.txs@[a] == mid[a] && self.txs@[b] == mid[b]);
                }
            }
        }
        self.update_threshold();
        proof {
            lemma_distinct_find(self.txs@, self.txs@.len() - 1);
        }
        None
    }

    /// Position of a held id.
    fn find_index(&self, id: TxId) -> (k: usize)
        requires
            has_id(self.txs@, id),
        ensures
            k == first_id_index(self.txs@, id),
            k < self.txs@.len(),
    {
        proof {
            lemma_first_id_index(self.txs@, id);
        }
        let n = self.txs.len();
        let mut i: usize = 0;
        while i < n
            invariant
                n == self.txs@.len(),
                i <= n,
                forall|j: int| 0 <= j < i ==> self.txs@[j].id != id,
                has_id(self.txs@, id),
            decreases n - i,
        {
            if self.txs[i].id == id {
                proof {
                    lemma_first_id_index_is(self.txs@, id, i as int);
                }
                return i;
            }
            i = i + 1;
        }
        proof {
            let j = choose|j: int| 0 <= j < self.txs@.len() && #[trigger] self.txs@[j].id == id;
            assert(self.txs@[j].id != id);
        }
        0
    }

    /// Update the minimum fee threshold from the pool's pressure.
    fn update_threshold(&mut self)
        ensures
            final(self).txs == old(self).txs,
            final(self).max_size == old(self).max_size,
            final(self).total_inserted == old(self).total_inserted,
            final(self).total_evicted == old(self).total_evicted,
            final(self).total_rejected == old(self).total_rejected,
            threshold_rule(final(self).txs@, final(self).max_size as int, old(self).min_density_threshold, final(self).min_density_threshold),
    {
        let n = self.txs.len();
        match self.pressure() {
            PoolPressure::Low => {
                self.min_density_threshold = 0;
            },
            PoolPressure::Medium => {
                if n > 0 {
                    self.min_density_threshold = percentile_fee(&self.txs, 10);
                }
            },
            PoolPressure::High => {
                if n > 0 {
                    self.min_density_threshold = percentile_fee(&self.txs, 25);
                }
            },
            PoolPressure::Critical => {
                if n > 0 {
                    self.min_density_threshold = percentile_fee(&self.txs, 50);
                }
            },
        }
    }

    /// Remove a transaction by id; the threshold follows the new pressure.
    pub fn remove(&mut self, id: TxId) -> (r: Option<Tx>)
        requires
            old(self).wf(),
        ensures
            final(self).wf(),
            final(self).spec_max_size() == old(self).spec_max_size(),
            final(self).spec_inserted() == old(self).spec_inserted(),
            final(self).spec_evicted() == old(self).spec_evicted(),
            final(self).spec_rejected() == old(self).spec_rejected(),
            r is None <==> !has_id(old(self).spec_txs(), id),
            !has_id(final(self).spec_txs(), id),
            r is None ==> final(self).spec_txs() == old(self).spec_txs()
                && final(self).spec_threshold() == old(self).spec_threshold(),
            r matches Some(t) ==> {
                let k = first_id_index(old(self).spec_txs(), id);
                &&& t == old(self).spec_txs()[k]
                &&& t.id == id
                &&& final(self).spec_txs() == old(self).spec_txs().remove(k)
                &&& threshold_rule(final(self).spec_txs(), final(self).spec_max_size() as int,
                        old(self).spec_threshold(), final(self).spec_threshold())
            },
    {
        proof {
            lemma_first_id_index(self.txs@, id);
        }
        if !contains_id(&self.txs, id) {
            return None;
        }
        let k = self.find_index(id);
        let ghost s = self.txs@;
        let t = self.txs.remove(k);
        proof {
            lemma_ids_distinct_remove(s, k as int);
            assert(!has_id(self.txs@, id)) by {
                if has_id(self.txs@, id) {
                    let j = choose|j: int| 0 <= j < self.txs@.len() && #[trigger] self.txs@[j].id == id;
                    let j2 = if j < k { j } else { j + 1 };
                    assert(self.txs@[j] == s[j2]);
                }
            }
        }
        self.update_threshold();
        Some(t)
    }

    /// The transaction with an id.
    pub fn get(&self, id: TxId) -> (r: Option<&Tx>)
        ensures
            r is None <==> !has_id(self.spec_txs(), id),
            r matches Some(t) ==> *t == self.spec_txs()[first_id_index(self.spec_txs(), id)] && t.id == id,
    {
        proof {
            lemma_first_id_index(self.txs@, id);
        }
        if !contains_id(&self.txs, id) {
            return None;
        }
        let k = self.find_index(id);
        Some(&self.txs[k])
    }

    /// Whether a transaction with an id is held.
    pub fn contains(&self, id: TxId) -> (b: bool)
        ensures
            b == has_id(self.spec_txs(), id),
    {
        contains_id(&self.txs, id)
    }

    /// All transactions, highest priority fee first (ties in arrival order).
    pub fn sorted_by_density(&self) -> (r: Vec<&Tx>)
        ensures
            listed_in_order(self.spec_txs(), descending_density_keys(self.spec_txs()), r@),
    {
        let n = self.txs.len();
        let mut keys: Vec<u128> = Vec::new();
        let mut i: usize = 0;
        while i < n
            invariant
                n == self.txs@.len(),
                i <= n,
                keys@.len() == i,
                forall|j: int| 0 <= j < i ==> #[trigger] keys@[j] == descending_density_keys(self.txs@)[j],
            decreases n - i,
        {
            keys.push(self.txs[i].priority_fee_gwei as u128);
            i = i + 1;
        }
        assert(keys@ =~= descending_density_keys(self.txs@));
        let order = sort_desc(&keys);
        Self::pick_refs(&self.txs, &order, Ghost(keys@))
    }

    /// All transactions, highest value first (ties in arrival order).
    pub fn sorted_by_value(&self) -> (r: Vec<&Tx>)
        requires
            forall|j: int| 0 <= j < self.spec_txs().len() ==> #[trigger] self.spec_txs()[j].value_fits(),
        ensures
            listed_in_order(self.spec_txs(), descending_value_keys(self.spec_txs()), r@),
    {
        let n = self.txs.len();
        let mut keys: Vec<u128> = Vec::new();
        let mut i: usize = 0;
        assert(self.spec_txs() == self.txs@);
        while i < n
            invariant
                n == self.txs@.len(),
                i <= n,
                keys@.len() == i,
                self.spec_txs() == self.txs@,
                forall|j: int| 0 <= j < n ==> #[trigger] self.spec_txs()[j].value_fits(),
                forall|j: int| 0 <= j < i ==> #[trigger] keys@[j] == descending_value_keys(self.txs@)[j],
            decreases n - i,
        {
            keys.push(self.txs[i].value() as u128);
            i = i + 1;
        }
        assert(keys@ =~= descending_value_keys(self.txs@));
        let order = sort_desc(&keys);
        Self::pick_refs(&self.txs, &order, Ghost(keys@))
    }

    /// References to the transactions at the positions listed in `order`.
    fn pick_refs<'a>(txs: &'a Vec<Tx>, order: &Vec<usize>, keys: Ghost<Seq<u128>>) -> (r: Vec<&'a Tx>)
        requires
            keys@.len() == txs@.len(),
            is_desc_order(keys@, order@),
        ensures
            listed_in_order(txs@, keys@, r@),
    {
        let n = order.len();
        let mut r: Vec<&'a Tx> = Vec::new();
        let mut a: usize = 0;
        while a < n
            invariant
                n == order@.len(),
                n == txs@.len(),
                is_desc_order(keys@, order@),
                a <= n,
                r@.len() == a,
                forall|b: int| 0 <= b < a ==> r@[b] == txs@[#[trigger] order@[b] as int],
            decreases n - a,
        {
            r.push(&txs[order[a]]);
            a = a + 1;
        }
        r
    }

    /// All transactions, in arrival order.
    pub fn iter(&self) -> (r: &[Tx])
        ensures
            r@ == self.spec_txs(),
    {
        self.txs.as_slice()
    }

    /// Remove the transactions with the given ids; returns how many were removed.
    /// The threshold follows the new pressure when any was removed.
    pub fn remove_many(&mut self, ids: &[TxId]) -> (removed: usize)
        requires
            old(self).wf(),
        ensures
            final(self).wf(),
            final(self).spec_max_size() == old(self).spec_max_size(),
            final(self).spec_inserted() == old(self).spec_inserted(),
            final(self).spec_evicted() == old(self).spec_evicted(),
            final(self).spec_rejected() == old(self).spec_rejected(),
            final(self).spec_txs() == remove_ids(old(self).spec_txs(), ids@.to_set()),
            removed == old(self).spec_txs().len() - final(self).spec_txs().len(),
            removed == 0 ==> final(self).spec_threshold() == old(self).spec_threshold(),
            removed > 0 ==> threshold_rule(final(self).spec_txs(), final(self).spec_max_size() as int,
                old(self).spec_threshold(), final(self).spec_threshold()),
    {
        let ghost s = self.txs@;
        let n0 = self.txs.len();
        let mut removed: usize = 0;
        let n = ids.len();
        let mut i: usize = 0;
        proof {
            assert(ids@.take(0).to_set() =~= Set::<TxId>::empty());
            crate::seqs::lemma_remove_ids_none(s);
            crate::seqs::lemma_remove_ids_sub(s, Set::<TxId>::empty());
        }
        while i < n
            invariant
                n == ids@.len(),
                i <= n,
                ids_distinct(s),
                s.len() == n0,
                self.txs@ == remove_ids(s, ids@.take(i as int).to_set()),
                ids_distinct(self.txs@),
                removed == s.len() - self.txs@.len(),
                self.max_size == old(self).max_size,
                self.min_density_threshold == old(self).min_density_threshold,
                self.total_inserted == old(self).total_inserted,
                self.total_evicted == old(self).total_evicted,
                self.total_rejected == old(self).total_rejected,
                s == old(self).txs@,
            decreases n - i,
        {
            let id = ids[i];
            let ghost set_i = ids@.take(i as int).to_set();
            proof {
                assert(ids@.take(i as int + 1).to_set() =~= set_i.insert(id)) by {
                    assert(ids@.take(i as int + 1) =~= ids@.take(i as int).push(id));
                    ids@.take(i as int).lemma_push_to_set_commute(id);
                }
                crate::seqs::lemma_remove_ids_sub(s, set_i);
            }
            if contains_id(&self.txs, id) {
                let k = self.find_index(id);
                proof {
                    let cur = self.txs@;
                    lemma_first_id_index(cur, id);
                    assert(s.contains(cur[k as int]));
                    let j = choose|j: int| 0 <= j < s.len() && s[j] == cur[k as int];
                    assert(!set_i.contains(s[j].id));
                    crate::seqs::lemma_remove_ids_step(s, set_i, j);
                    lemma_ids_distinct_remove(cur, k as int);
                }
                self.txs.remove(k);
                removed = removed + 1;
            } else {
                proof {
                    if set_i.contains(id) {
                        assert(set_i.insert(id) =~= set_i);
                    } else {
                        assert(!has_id(s, id)) by {
                            if has_id(s, id) {
                                let j = choose|j: int| 0 <= j < s.len() && #[trigger] s[j].id == id;
                                crate::seqs::lemma_remove_ids_step(s, set_i, j);
                            }
                        }
                        crate::seqs::lemma_remove_ids_absent(s, set_i, id);
                    }
                }
            }
            i = i + 1;
        }
        proof {
            assert(ids@.take(n as int) =~= ids@);
        }
        if removed > 0 {
            self.update_threshold();
        }
        removed
    }

    /// Clear all transactions from the pool (the counters stay).
    pub fn clear(&mut self)
        ensures
            final(self).wf(),
            final(self).spec_txs() == Seq::<Tx>::empty(),
            final(self).spec_threshold() == 0,
            final(self).spec_max_size() == old(self).spec_max_size(),
            final(self).spec_inserted() == old(self).spec_inserted(),
            final(self).spec_evicted() == old(self).spec_evicted(),
            final(self).spec_rejected() == old(self).spec_rejected(),
    {
        self.txs.clear();
        self.min_density_threshold = 0;
    }

    /// Whether `insert` may be called: every counter can still grow.
    pub fn can_insert(&self) -> (b: bool)
        ensures
            b == (self.spec_inserted() < u64::MAX && self.spec_evicted() < u64::MAX
                && self.spec_rejected() < u64::MAX),
    {
        self.total_inserted < u64::MAX && self.total_evicted < u64::MAX && self.total_rejected < u64::MAX
    }

    /// Whether the gas and value totals of the held transactions fit in `u64`,
    /// as `stats` needs.
    pub fn totals_fit(&self) -> (b: bool)
        ensures
            b == (sum_gas(self.spec_txs()) <= u64::MAX && sum_value(self.spec_txs()) <= u64::MAX),
    {
        let ghost s = self.txs@;
        let n = self.txs.len();
        let mut gas: u64 = 0;
        let mut value: u64 = 0;
        let mut i: usize = 0;
        proof {
            assert forall|t: Tx| #[trigger] value_fn()(t) >= 0 by {
                vstd::arithmetic::mul::lemma_mul_nonnegative(t.priority_fee_gwei as int, t.gas_limit as int);
            }
            assert forall|t: Tx| #[trigger] gas_fn()(t) >= 0 by {}
            assert(s.take(0) =~= Seq::<Tx>::empty());
            assert(s.take(n as int) =~= s);
        }
        while i < n
            invariant
                n == s.len(),
                s == self.txs@,
                s.take(n as int) == s,
                i <= n,
                forall|t: Tx| #[trigger] value_fn()(t) >= 0,
                forall|t: Tx| #[trigger] gas_fn()(t) >= 0,
                gas == sum_gas(s.take(i as int)),
                value == sum_value(s.take(i as int)),
            decreases n - i,
        {
            let t = self.txs[i];
            proof {
                lemma_prefix_sum(s, i as int, gas_fn());
                lemma_prefix_sum(s, i as int, value_fn());
                lemma_prefix_le(s, i as int + 1, gas_fn());
                lemma_prefix_le(s, i as int + 1, value_fn());
                vstd::arithmetic::mul::lemma_mul_upper_bound(t.gas_limit as int, u64::MAX as int, t.priority_fee_gwei as int, u64::MAX as int);
                assert(u64::MAX as int * u64::MAX as int <= u128::MAX - u64::MAX) by (nonlinear_arith);
            }
            let v = (t.gas_limit as u128) * (t.priority_fee_gwei as u128);
            proof {
                assert(value_fn()(t) == t.priority_fee_gwei * t.gas_limit);
                assert(v == t.priority_fee_gwei * t.gas_limit) by (nonlinear_arith)
                    requires v == t.gas_limit * t.priority_fee_gwei;
                assert(gas_fn()(t) == t.gas_limit);
                assert(s[i as int] == t);
            }
            if (gas as u128) + (t.gas_limit as u128) > u64::MAX as u128 || (value as u128) + v > u64::MAX as u128 {
                return false;
            }
            gas = gas + t.gas_limit;
            value = value + (v as u64);
            i = i + 1;
        }
        true
    }

    /// Pool statistics.
    pub fn stats(&self) -> (st: PoolStats)
        requires
            sum_gas(self.spec_txs()) <= u64::MAX,
            sum_value(self.spec_txs()) <= u64::MAX,
        ensures
            st.count == self.spec_txs().len(),
            st.total_gas == sum_gas(self.spec_txs()),
            st.total_value == sum_value(self.spec_txs()),
            self.spec_txs().len() == 0 ==> st.min_density == 0 && st.max_density == 0,
            self.spec_txs().len() > 0 ==> is_min_fee(self.spec_txs(), st.min_density)
                && is_max_fee(self.spec_txs(), st.max_density),
            st.pressure == self.spec_pressure(),
            st.min_threshold == self.spec_threshold(),
            st.total_inserted == self.spec_inserted(),
            st.total_evicted == self.spec_evicted(),
            st.total_rejected == self.spec_rejected(),
    {
        let n = self.txs.len();
        let mut total_gas: u64 = 0;
        let mut total_value: u64 = 0;
        let mut min_density: u64 = if n == 0 { 0 } else { self.txs[0].priority_fee_gwei };
        let mut max_density: u64 = min_density;
        let mut i: usize = 0;
        proof {
            lemma_sum_nonneg(self.txs@, gas_fn());
            lemma_sum_nonneg(self.txs@, value_fn());
            assert(self.txs@.take(0) =~= Seq::<Tx>::empty());
            assert(self.txs@.skip(0) =~= self.txs@);
        }
        while i < n
            invariant
                n == self.txs@.len(),
                i <= n,
                sum_gas(self.txs@) <= u64::MAX,
                sum_value(self.txs@) <= u64::MAX,
                forall|k: int| 0 <= k < n ==> gas_fn()(#[trigger] self.txs@[k]) <= sum_gas(self.txs@),
                forall|k: int| 0 <= k < n ==> value_fn()(#[trigger] self.txs@[k]) <= sum_value(self.txs@),
                total_gas == sum_gas(self.txs@.take(i as int)),
                total_value == sum_value(self.txs@.take(i as int)),
                sum_gas(self.txs@.take(i as int)) + sum_gas(self.txs@.skip(i as int)) == sum_gas(self.txs@),
                sum_value(self.txs@.take(i as int)) + sum_value(self.txs@.skip(i as int)) == sum_value(self.txs@),
                n > 0 ==> exists|j: int| 0 <= j < n && self.txs@[j].priority_fee_gwei == min_density,
                n > 0 ==> exists|j: int| 0 <= j < n && self.txs@[j].priority_fee_gwei == max_density,
                forall|j: int| 0 <= j < i ==> min_density <= #[trigger] self.txs@[j].priority_fee_gwei,
                forall|j: int| 0 <= j < i ==> max_density >= #[trigger] self.txs@[j].priority_fee_gwei,
                n == 0 ==> min_density == 0 && max_density == 0,
            decreases n - i,
        {
            let t = &self.txs[i];
            proof {
                let s = self.txs@;
                assert(s.take(i as int + 1) =~= s.take(i as int).push(s[i as int]));
                lemma_sum_push(s.take(i as int), s[i as int], gas_fn());
                lemma_sum_push(s.take(i as int), s[i as int], value_fn());
                assert(s.skip(i as int) =~= seq![s[i as int]] + s.skip(i as int + 1));
                crate::seqs::lemma_sum_concat(seq![s[i as int]], s.skip(i as int + 1), gas_fn());
                crate::seqs::lemma_sum_concat(seq![s[i as int]], s.skip(i as int + 1), value_fn());
                assert(seq![s[i as int]].drop_first() =~= Seq::<Tx>::empty());
                assert(crate::seqs::tx_sum(Seq::<Tx>::empty(), gas_fn()) == 0);
                assert(crate::seqs::tx_sum(Seq::<Tx>::empty(), value_fn()) == 0);
                assert(sum_gas(seq![s[i as int]]) == s[i as int].gas_limit);
                assert(sum_value(seq![s[i as int]]) == s[i as int].spec_value());
                lemma_sum_nonneg(s.skip(i as int + 1), gas_fn());
                lemma_sum_nonneg(s.skip(i as int + 1), value_fn());
                assert(gas_fn()(s[i as int]) <= sum_gas(s));
                assert(value_fn()(s[i as int]) <= sum_value(s));
            }
            total_gas = total_gas + t.gas_limit;
            total_value = total_value + t.value();
            if t.priority_fee_gwei < min_density {
                min_density = t.priority_fee_gwei;
            }
            if t.priority_fee_gwei > max_density {
                max_density = t.priority_fee_gwei;
            }
            i = i + 1;
        }
        proof {
            assert(self.txs@.take(n as int) =~= self.txs@);
        }
        PoolStats {
            count: n,
            total_gas,
            total_value,
            min_density,
            max_density,
            pressure: self.pressure(),
            min_threshold: self.min_density_threshold,
            total_inserted: self.total_inserted,
            total_evicted: self.total_evicted,
            total_rejected: self.total_rejected,
        }
    }
}

/// `v` is the lowest priority fee of `s`.
pub open spec fn is_min_fee(s: Seq<Tx>, v: u64) -> bool {
    &&& exists|j: int| 0 <= j < s.len() && s[j].priority_fee_gwei == v
    &&& forall|j: int| 0 <= j < s.len() ==> v <= #[trigger] s[j].priority_fee_gwei
}

/// `v` is the highest priority fee of `s`.
pub open spec fn is_max_fee(s: Seq<Tx>, v: u64) -> bool {
    &&& exists|j: int| 0 <= j < s.len() && s[j].priority_fee_gwei == v
    &&& forall|j: int| 0 <= j < s.len() ==> v >= #[trigger] s[j].priority_fee_gwei
}

/// Statistics about the pool state. Densities are priority fees per unit of gas.
#[derive(Debug, Clone, Copy)]
pub struct PoolStats {
    pub count: usize,
    pub total_gas: u64,
    pub total_value: u64,
    pub min_density: u64,
    pub max_density: u64,
    pub pressure: PoolPressure,
    pub min_threshold: u64,
    pub total_inserted: u64,
    pub total_evicted: u64,
    pub total_rejected: u64,
}

/// In a sequence whose ids are distinct, the transaction at a position is the one
/// that its id finds.
proof fn lemma_distinct_find(s: Seq<Tx>, k: int)
    requires
        ids_distinct(s),
        0 <= k < s.len(),
    ensures
        has_id(s, s[k].id),
        first_id_index(s, s[k].id) == k,
{
    assert forall|j: int| 0 <= j < k implies s[j].id != s[k].id by {
        assert(s[j].id != s[k].id);
    }
    lemma_first_id_index_is(s, s[k].id, k);
}

proof fn lemma_ids_distinct_remove(s: Seq<Tx>, k: int)
    requires
        ids_distinct(s),
        0 <= k < s.len(),
    ensures
        ids_distinct(s.remove(k)),
        forall|x: TxId| #[trigger] has_id(s.remove(k), x) ==> has_id(s, x),
{
    let r = s.remove(k);
    assert forall|a: int, b: int| 0 <= a < r.len() && 0 <= b < r.len() && a != b
        implies #[trigger] r[a].id != #[trigger] r[b].id by {
        let a2 = if a < k { a } else { a + 1 };
        let b2 = if b < k { b } else { b + 1 };
        assert(r[a] == s[a2] && r[b] == s[b2]);
    }
    assert forall|x: TxId| #[trigger] has_id(r, x) implies has_id(s, x) by {
        let j = choose|j: int| 0 <= j < r.len() && #[trigger] r[j].id == x;
        let j2 = if j < k { j } else { j + 1 };
        assert(r[j] == s[j2]);
    }
}

/// A listing by density holds each pooled transaction exactly once and lists
/// priority fees that never rise: position `a` of the listing holds pool
/// position `m[a]`, each pool position is listed once, and fees fall or tie
/// along the listing.
pub proof fn lemma_density_listing<'a>(s: Seq<Tx>, r: Seq<&'a Tx>)
    requires
        listed_in_order(s, descending_density_keys(s), r),
    ensures
        r.len() == s.len(),
        exists|m: Seq<usize>| {
            &&& m.len() == r.len()
            &&& forall|a: int| 0 <= a < r.len() ==> #[trigger] m[a] < s.len() && *r[a] == s[m[a] as int]
            &&& forall|a: int, b: int| 0 <= a < b < m.len() ==> #[trigger] m[a] != #[trigger] m[b]
            &&& forall|k: int| 0 <= k < s.len() ==> #[trigger] m.contains(k as usize)
        },
        forall|a: int, b: int| 0 <= a < b < r.len() ==> (#[trigger] r[a]).priority_fee_gwei >= (#[trigger] r[b]).priority_fee_gwei,
{
    let keys = descending_density_keys(s);
    let p = choose|p: Seq<usize>| is_desc_order(keys, p) && r.len() == s.len()
        && forall|a: int| 0 <= a < r.len() ==> r[a] == s[#[trigger] p[a] as int];
    assert forall|a: int, b: int| 0 <= a < b < p.len() implies #[trigger] p[a] != #[trigger] p[b] by {
        assert(desc_before(keys, p[a] as int, p[b] as int));
    }
    assert forall|a: int, b: int| 0 <= a < b < r.len() implies (#[trigger] r[a]).priority_fee_gwei >= (#[trigger] r[b]).priority_fee_gwei by {
        assert(desc_before(keys, p[a] as int, p[b] as int));
        assert(r[a] == s[p[a] as int] && r[b] == s[p[b] as int]);
    }
    assert forall|a: int| 0 <= a < r.len() implies #[trigger] p[a] < s.len() && *r[a] == s[p[a] as int] by {}
}

} // verus!
