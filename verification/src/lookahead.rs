use vstd::prelude::*;
use vstd::multiset::Multiset;
use std::collections::HashMap;
use crate::tx::{Tx, TxId};
use crate::order::{is_desc_order, sort_desc, desc_before};
use crate::seqs::{tx_sum, sum_gas, sum_value, has_id, first_id_index, gas_fn, value_fn, lemma_sum_push, lemma_sum_remove, lemma_sum_nonneg, lemma_sum_concat, lemma_first_id_index, lemma_first_id_index_is, contains_id};

verus! {

broadcast use vstd::std_specs::hash::group_hash_axioms;

/// A block of the lookahead window, with the transactions planned for it.
#[derive(Debug, Clone)]
pub struct PlannedBlock {
    /// Block number
    pub number: u64,
    /// Gas limit for this block
    pub gas_limit: u64,
    /// Transactions planned for this block
    pub transactions: Vec<Tx>,
    /// Current gas used
    pub gas_used: u64,
    /// Total value of planned transactions
    pub total_value: u64,
}

impl PlannedBlock {
    /// The counters agree with the transactions, and the gas stays within the limit.
    pub open spec fn wf(&self) -> bool {
        &&& self.gas_used == sum_gas(self.transactions@)
        &&& self.total_value == sum_value(self.transactions@)
        &&& self.gas_used <= self.gas_limit
    }

    /// Remaining gas, saturating at zero.
    pub open spec fn spec_remaining(&self) -> u64 {
        if self.gas_used <= self.gas_limit {
            (self.gas_limit - self.gas_used) as u64
        } else {
            0
        }
    }

    /// Create a new empty block.
    pub fn new(number: u64, gas_limit: u64) -> (b: Self)
        ensures
            b.number == number,
            b.gas_limit == gas_limit,
            b.transactions@ == Seq::<Tx>::empty(),
            b.gas_used == 0,
            b.total_value == 0,
            b.wf(),
    {
        PlannedBlock { number, transactions: Vec::new(), gas_limit, gas_used: 0, total_value: 0 }
    }

    /// Remaining gas capacity.
    pub fn remaining_gas(&self) -> (r: u64)
        ensures
            r == self.spec_remaining(),
    {
        self.gas_limit.saturating_sub(self.gas_used)
    }

    /// Whether a transaction fits in the remaining space.
    pub fn can_fit(&self, tx: &Tx) -> (b: bool)
        ensures
            b == (tx.gas_limit <= self.spec_remaining()),
    {
        tx.gas_limit <= self.remaining_gas()
    }

    /// Add a transaction to the block; returns false, and changes nothing,
    /// when it does not fit.
    pub fn add_tx(&mut self, tx: Tx) -> (added: bool)
        requires
            tx.gas_limit <= old(self).spec_remaining() ==> old(self).total_value + tx.spec_value() <= u64::MAX,
        ensures
            added == (tx.gas_limit <= old(self).spec_remaining()),
            added ==> final(self).transactions@ == old(self).transactions@.push(tx),
            added ==> final(self).gas_used == old(self).gas_used + tx.gas_limit,
            added ==> final(self).total_value == old(self).total_value + tx.spec_value(),
            !added ==> *final(self) == *old(self),
            final(self).number == old(self).number,
            final(self).gas_limit == old(self).gas_limit,
            old(self).wf() ==> final(self).wf(),
    {
        if !self.can_fit(&tx) {
            return false;
        }
        let v = tx.value();
        self.gas_used = self.gas_used + tx.gas_limit;
        self.total_value = self.total_value + v;
        self.transactions.push(tx);
        proof {
            lemma_sum_push(old(self).transactions@, tx, gas_fn());
            lemma_sum_push(old(self).transactions@, tx, value_fn());
        }
        true
    }

    /// Remove the first transaction with an id; returns it when found.
    pub fn remove_tx(&mut self, id: TxId) -> (removed: Option<Tx>)
        requires
            old(self).wf(),
        ensures
            final(self).wf(),
            final(self).number == old(self).number,
            final(self).gas_limit == old(self).gas_limit,
            removed is None <==> !has_id(old(self).transactions@, id),
            removed is None ==> *final(self) == *old(self),
            removed matches Some(t) ==> {
                let k = first_id_index(old(self).transactions@, id);
                &&& 0 <= k < old(self).transactions@.len()
                &&& t == old(self).transactions@[k]
                &&& t.id == id
                &&& final(self).transactions@ == old(self).transactions@.remove(k)
                &&& final(self).gas_used == old(self).gas_used - t.gas_limit
                &&& final(self).total_value == old(self).total_value - t.spec_value()
            },
    {
        proof {
            lemma_first_id_index(self.transactions@, id);
        }
        let n = self.transactions.len();
        let mut i: usize = 0;
        while i < n
            invariant
                n == self.transactions.len(),
                self == old(self),
                self.wf(),
                i <= n,
                forall|j: int| 0 <= j < i ==> self.transactions@[j].id != id,
            decreases n - i,
        {
            if self.transactions[i].id == id {
                proof {
                    lemma_first_id_index_is(self.transactions@, id, i as int);
                    lemma_sum_nonneg(self.transactions@, gas_fn());
                    lemma_sum_nonneg(self.transactions@, value_fn());
                    lemma_sum_remove(self.transactions@, i as int, gas_fn());
                    lemma_sum_remove(self.transactions@, i as int, value_fn());
                    assert(gas_fn()(self.transactions@[i as int]) <= sum_gas(self.transactions@));
                    assert(value_fn()(self.transactions@[i as int]) <= sum_value(self.transactions@));
                }
                let tx = self.transactions.remove(i);
                self.gas_used = self.gas_used - tx.gas_limit;
                self.total_value = self.total_value - tx.value();
                return Some(tx);
            }
            i = i + 1;
        }
        proof {
            if has_id(self.transactions@, id) {
                let j = choose|j: int| 0 <= j < self.transactions@.len() && #[trigger] self.transactions@[j].id == id;
                assert(self.transactions@[j].id != id);
            }
        }
        None
    }

    /// Number of transactions in the block.
    pub fn tx_count(&self) -> (n: usize)
        ensures
            n == self.transactions@.len(),
    {
        self.transactions.len()
    }

    /// Whether the block holds a transaction with an id.
    pub fn contains(&self, tx_id: TxId) -> (b: bool)
        ensures
            b == has_id(self.transactions@, tx_id),
    {
        contains_id(&self.transactions, tx_id)
    }

    /// Clear the block, keeping the same number and gas limit.
    pub fn clear(&mut self)
        ensures
            final(self).number == old(self).number,
            final(self).gas_limit == old(self).gas_limit,
            final(self).transactions@ == Seq::<Tx>::empty(),
            final(self).gas_used == 0,
            final(self).total_value == 0,
            final(self).wf(),
    {
        self.transactions.clear();
        self.gas_used = 0;
        self.total_value = 0;
    }
}

/// Priority level for transaction scheduling, most pressing first.
#[derive(Debug, Clone, Copy, PartialEq, Eq, Structural, PartialOrd, Ord)]
pub enum TxPriority {
    /// Must be in the immediate next block
    Urgent,
    /// Should be included soon (within the first two blocks)
    High,
    /// Normal priority, can wait
    Normal,
    /// Low priority, include when convenient
    Low,
}

/// Position of a priority in the order Urgent, High, Normal, Low.
pub open spec fn rank(p: TxPriority) -> int {
    match p {
        TxPriority::Urgent => 0,
        TxPriority::High => 1,
        TxPriority::Normal => 2,
        TxPriority::Low => 3,
    }
}

impl TxPriority {
    /// Position of the priority in the order Urgent, High, Normal, Low.
    pub fn rank(&self) -> (r: u8)
        ensures
            r == rank(*self),
    {
        match self {
            TxPriority::Urgent => 0,
            TxPriority::High => 1,
            TxPriority::Normal => 2,
            TxPriority::Low => 3,
        }
    }
}

impl Default for TxPriority {
    fn default() -> (p: Self)
        ensures
            p == TxPriority::Normal,
    {
        TxPriority::Normal
    }
}

/// A transaction with scheduling metadata.
#[derive(Debug, Clone, Copy)]
pub struct ScheduledTx {
    pub tx: Tx,
    pub priority: TxPriority,
    pub deadline_block: Option<u64>,
}

impl ScheduledTx {
    /// A normal-priority transaction without deadline.
    pub fn new(tx: Tx) -> (s: Self)
        ensures
            s == (ScheduledTx { tx, priority: TxPriority::Normal, deadline_block: None }),
    {
        ScheduledTx { tx, priority: TxPriority::Normal, deadline_block: None }
    }

    /// A transaction with a priority and no deadline.
    pub fn with_priority(tx: Tx, priority: TxPriority) -> (s: Self)
        ensures
            s == (ScheduledTx { tx, priority, deadline_block: None }),
    {
        ScheduledTx { tx, priority, deadline_block: None }
    }

    /// A normal-priority transaction with a deadline block.
    pub fn with_deadline(tx: Tx, deadline_block: u64) -> (s: Self)
        ensures
            s == (ScheduledTx { tx, priority: TxPriority::Normal, deadline_block: Some(deadline_block) }),
    {
        ScheduledTx { tx, priority: TxPriority::Normal, deadline_block: Some(deadline_block) }
    }

    /// An urgent transaction without deadline.
    pub fn urgent(tx: Tx) -> (s: Self)
        ensures
            s == (ScheduledTx { tx, priority: TxPriority::Urgent, deadline_block: None }),
    {
        ScheduledTx { tx, priority: TxPriority::Urgent, deadline_block: None }
    }

    /// Past the deadline: the current block is after it.
    pub open spec fn spec_expired(&self, current_block: u64) -> bool {
        self.deadline_block matches Some(d) && current_block > d
    }

    /// Whether the deadline has passed.
    pub fn is_expired(&self, current_block: u64) -> (b: bool)
        ensures
            b == self.spec_expired(current_block),
    {
        match self.deadline_block {
            Some(d) => current_block > d,
            None => false,
        }
    }

    /// Whether the deadline is reached: the current block is at or after it.
    pub fn is_due(&self, current_block: u64) -> (b: bool)
        ensures
            b == (self.deadline_block matches Some(d) && current_block >= d),
    {
        match self.deadline_block {
            Some(d) => current_block >= d,
            None => false,
        }
    }
}

/// Offset `i` of a window of `depth` blocks starting at block `start` may hold
/// the scheduled transaction: an urgent one only the first block, a high one the
/// first two, and none a block past its deadline.
pub open spec fn may_hold(stx: ScheduledTx, i: int, start: u64, depth: int) -> bool {
    &&& 0 <= i < depth
    &&& (stx.priority == TxPriority::Urgent ==> i == 0)
    &&& (stx.priority == TxPriority::High ==> i < 2)
    &&& (stx.deadline_block matches Some(d) ==> start + i <= d)
}

/// A transaction fits in a block planned with `b` under a gas limit.
pub open spec fn fits(b: Seq<Tx>, limit: u64, t: Tx) -> bool {
    sum_gas(b) + t.gas_limit <= limit
}

/// The first offset, from `i` on, that may hold the transaction and has room for it.
pub open spec fn first_fit(plan: Seq<Seq<Tx>>, limit: u64, stx: ScheduledTx, start: u64, i: int) -> Option<int>
    decreases plan.len() - i,
{
    if i < 0 || i >= plan.len() {
        None
    } else if may_hold(stx, i, start, plan.len() as int) && fits(plan[i], limit, stx.tx) {
        Some(i)
    } else {
        first_fit(plan, limit, stx, start, i + 1)
    }
}

/// The transactions of scheduled transactions, in order.
pub open spec fn stx_txs(s: Seq<ScheduledTx>) -> Seq<Tx> {
    s.map_values(|x: ScheduledTx| x.tx)
}

/// The priority rank of the first transaction with an id among those scheduled
/// so far (`placed`); 0, the most pressing, when there is none.
pub open spec fn placed_rank(placed: Seq<ScheduledTx>, id: TxId) -> int {
    let i = first_id_index(stx_txs(placed), id);
    if i < 0 { 0 } else { rank(placed[i].priority) }
}

/// Bumping `t` from a block planned with `b` would make room for `new`, `t` was
/// scheduled (among `placed`) with a strictly lower priority than the rank `nr`
/// of `new`, and `new` pays a higher priority fee.
pub open spec fn bumpable(b: Seq<Tx>, limit: u64, new: Tx, t: Tx, placed: Seq<ScheduledTx>, nr: int) -> bool {
    &&& limit - sum_gas(b) + t.gas_limit >= new.gas_limit
    &&& placed_rank(placed, t.id) > nr
    &&& new.priority_fee_gwei > t.priority_fee_gwei
}

/// Some transaction of the block could be bumped for `new`.
pub open spec fn has_bump(b: Seq<Tx>, limit: u64, new: Tx, placed: Seq<ScheduledTx>, nr: int) -> bool {
    exists|j: int| 0 <= j < b.len() && bumpable(b, limit, new, #[trigger] b[j], placed, nr)
}

/// `k` is the first position of the lowest fee among the bumpable transactions.
pub open spec fn is_bump_pick(b: Seq<Tx>, limit: u64, new: Tx, k: int, placed: Seq<ScheduledTx>, nr: int) -> bool {
    &&& 0 <= k < b.len()
    &&& bumpable(b, limit, new, b[k], placed, nr)
    &&& forall|j: int| 0 <= j < b.len() && bumpable(b, limit, new, #[trigger] b[j], placed, nr) ==>
            b[k].priority_fee_gwei <= b[j].priority_fee_gwei
    &&& forall|j: int| 0 <= j < k && bumpable(b, limit, new, #[trigger] b[j], placed, nr) ==>
            b[j].priority_fee_gwei > b[k].priority_fee_gwei
}

/// The transaction to bump for `new`.
pub open spec fn bump_pick(b: Seq<Tx>, limit: u64, new: Tx, placed: Seq<ScheduledTx>, nr: int) -> int {
    choose|k: int| is_bump_pick(b, limit, new, k, placed, nr)
}

/// The first offset, from `i` on, that may hold the transaction and has one to bump.
pub open spec fn first_bump(plan: Seq<Seq<Tx>>, limit: u64, stx: ScheduledTx, start: u64, i: int, placed: Seq<ScheduledTx>) -> Option<int>
    decreases plan.len() - i,
{
    if i < 0 || i >= plan.len() {
        None
    } else if may_hold(stx, i, start, plan.len() as int) && has_bump(plan[i], limit, stx.tx, placed, rank(stx.priority)) {
        Some(i)
    } else {
        first_bump(plan, limit, stx, start, i + 1, placed)
    }
}

/// A block after bumping for `new`: the first transaction with the picked id
/// leaves, and `new` joins when it fits.
pub open spec fn after_bump(b: Seq<Tx>, limit: u64, new: Tx, placed: Seq<ScheduledTx>, nr: int) -> Seq<Tx> {
    let k = bump_pick(b, limit, new, placed, nr);
    let rest = b.remove(first_id_index(b, b[k].id));
    if fits(rest, limit, new) { rest.push(new) } else { rest }
}

/// Scheduling one transaction: the new plan, the offset it went to, and the id
/// of the transaction bumped for it. It goes to the first offset that may hold
/// it and has room; failing that, an urgent or high one bumps, at the first
/// offset that may hold it, the lowest-fee transaction that makes room, pays
/// less and was scheduled (among `placed`) with a lower priority; failing that,
/// the plan is unchanged.
pub open spec fn schedule(plan: Seq<Seq<Tx>>, limit: u64, start: u64, stx: ScheduledTx, placed: Seq<ScheduledTx>) -> (Seq<Seq<Tx>>, Option<int>, Option<TxId>) {
    match first_fit(plan, limit, stx, start, 0) {
        Some(i) => (plan.update(i, plan[i].push(stx.tx)), Some(i), None),
        None => if rank(stx.priority) <= 1 {
            match first_bump(plan, limit, stx, start, 0, placed) {
                Some(i) => (
                    plan.update(i, after_bump(plan[i], limit, stx.tx, placed, rank(stx.priority))),
                    Some(i),
                    Some(plan[i][bump_pick(plan[i], limit, stx.tx, placed, rank(stx.priority))].id),
                ),
                None => (plan, None, None),
            }
        } else {
            (plan, None, None)
        },
    }
}

/// The transaction-to-block assignments after scheduling one transaction.
pub open spec fn assign_after(m: Map<TxId, u64>, stx: ScheduledTx, start: u64, r: (Seq<Seq<Tx>>, Option<int>, Option<TxId>)) -> Map<TxId, u64> {
    match r.1 {
        Some(i) => {
            let m2 = m.insert(stx.tx.id, (start + i) as u64);
            match r.2 {
                Some(b) => m2.remove(b),
                None => m2,
            }
        },
        None => m,
    }
}

/// The plan, the assignments and the unscheduled transactions after scheduling
/// the first `k` transactions of `sorted` into an empty window.
pub open spec fn plan_run(sorted: Seq<ScheduledTx>, k: int, depth: nat, limit: u64, start: u64)
    -> (Seq<Seq<Tx>>, Map<TxId, u64>, Seq<ScheduledTx>)
    decreases k,
{
    if k <= 0 {
        (Seq::new(depth, |i: int| Seq::<Tx>::empty()), Map::empty(), Seq::empty())
    } else {
        let prev = plan_run(sorted, k - 1, depth, limit, start);
        let stx = sorted[k - 1];
        let r = schedule(prev.0, limit, start, stx, sorted.take(k - 1));
        (r.0, assign_after(prev.1, stx, start, r), if r.1 is Some { prev.2 } else { prev.2.push(stx) })
    }
}

/// Sort key of a scheduled transaction: more pressing priority first, then the
/// higher priority fee.
pub open spec fn plan_key(stx: ScheduledTx) -> u128 {
    ((3 - rank(stx.priority)) * 0x1_0000_0000_0000_0000 + stx.tx.priority_fee_gwei) as u128
}

/// The sort keys of the scheduled transactions.
pub open spec fn plan_keys(s: Seq<ScheduledTx>) -> Seq<u128> {
    s.map_values(|stx: ScheduledTx| plan_key(stx))
}

/// The elements of `s` at the positions listed in `p`.
pub open spec fn permuted(s: Seq<ScheduledTx>, p: Seq<usize>) -> Seq<ScheduledTx> {
    Seq::new(p.len(), |a: int| s[p[a] as int])
}

/// The transactions planned for each block.
pub open spec fn txs_of(blocks: Seq<PlannedBlock>) -> Seq<Seq<Tx>> {
    blocks.map_values(|b: PlannedBlock| b.transactions@)
}

/// Total value planned over the blocks.
pub open spec fn blocks_value(blocks: Seq<PlannedBlock>) -> int
    decreases blocks.len(),
{
    if blocks.len() == 0 { 0 } else { blocks[0].total_value + blocks_value(blocks.drop_first()) }
}

/// Total number of transactions planned over the blocks.
pub open spec fn blocks_tx_count(blocks: Seq<PlannedBlock>) -> int
    decreases blocks.len(),
{
    if blocks.len() == 0 { 0 } else { blocks[0].transactions@.len() + blocks_tx_count(blocks.drop_first()) }
}

/// Every block of the plan can take the transaction's value without its total
/// overflowing a `u64`.
pub open spec fn room_for_value(plan: Seq<Seq<Tx>>, tx: Tx) -> bool {
    forall|i: int| 0 <= i < plan.len() ==> sum_value(#[trigger] plan[i]) + tx.spec_value() <= u64::MAX
}

/// The transactions planned over the blocks of a plan, as a multiset.
pub open spec fn plan_multiset(plan: Seq<Seq<Tx>>) -> Multiset<Tx>
    decreases plan.len(),
{
    if plan.len() == 0 { Multiset::empty() } else { plan_multiset(plan.drop_last()).add(plan.last().to_multiset()) }
}

/// Total value planned over the blocks of a plan.
pub open spec fn plan_value(plan: Seq<Seq<Tx>>) -> int
    decreases plan.len(),
{
    if plan.len() == 0 { 0 } else { plan_value(plan.drop_last()) + sum_value(plan.last()) }
}

/// An urgent transaction that is not yet past its deadline at the window's first
/// block needs that block to exist.
pub open spec fn urgent_has_room(s: Seq<ScheduledTx>, start: u64, depth: int) -> bool {
    forall|i: int| 0 <= i < s.len() && #[trigger] s[i].priority == TxPriority::Urgent
        && (s[i].deadline_block matches Some(d) ==> start <= d) ==> depth > 0
}

/// Keep only the assignments to blocks numbered `min` or later.
fn keep_from(m: &mut HashMap<TxId, u64>, min: u64)
    ensures
        final(m)@ == old(m)@.restrict(old(m)@.dom().filter(|k: TxId| old(m)@[k] >= min)),
{
    let ghost m0 = m@;
    let ghost all = vstd::std_specs::iter::IteratorSpec::remaining(&vstd::std_specs::hash::spec_hash_map_iter(&*m));
    let ghost mut seen: int = 0;
    let mut drop: Vec<TxId> = Vec::new();
    for kv in it: m.iter()
        invariant
            m@ == m0,
            it.seq() == all,
            seen == it.index(),
            forall|a: int| 0 <= a < drop@.len() ==> #[trigger] m0.contains_key(drop@[a]) && m0[drop@[a]] < min,
            forall|a: int| 0 <= a < seen && *(#[trigger] all[a]).1 < min ==> drop@.contains(*all[a].0),
    {
        let ghost d0 = drop@;
        proof {
            assert(*kv.0 == *all[seen].0 && *kv.1 == *all[seen].1);
        }
        if *kv.1 < min {
            drop.push(*kv.0);
        }
        proof {
            assert forall|a: int| 0 <= a < seen + 1 && *(#[trigger] all[a]).1 < min implies drop@.contains(*all[a].0) by {
                if a < seen {
                    let j = choose|j: int| 0 <= j < d0.len() && #[trigger] d0[j] == *all[a].0;
                    assert(drop@[j] == d0[j]);
                } else {
                    assert(drop@[drop@.len() - 1] == *kv.0);
                }
            }
            seen = seen + 1;
        }
    }
    let ghost want = m0.restrict(m0.dom().filter(|k: TxId| m0[k] >= min));
    proof {
        assert(seen == all.len());
        assert forall|k: TxId| #[trigger] m0.contains_key(k) && m0[k] < min implies drop@.contains(k) by {
            assert(all.contains((&k, &m0[k])));
            let a = choose|a: int| 0 <= a < all.len() && #[trigger] all[a] == (&k, &m0[k]);
            assert(*all[a].1 < min);
        }
    }
    let n = drop.len();
    let mut i: usize = 0;
    while i < n
        invariant
            n == drop@.len(),
            i <= n,
            forall|a: int| 0 <= a < drop@.len() ==> #[trigger] m0.contains_key(drop@[a]) && m0[drop@[a]] < min,
            forall|k: TxId| #[trigger] m0.contains_key(k) && m0[k] < min ==> drop@.contains(k),
            forall|k: TxId| #[trigger] m@.contains_key(k) <==> m0.contains_key(k) && !drop@.take(i as int).contains(k),
            forall|k: TxId| #[trigger] m@.contains_key(k) ==> m@[k] == m0[k],
        decreases n - i,
    {
        let k = drop[i];
        m.remove(&k);
        proof {
            assert(drop@.take(i as int + 1) =~= drop@.take(i as int).push(k));
            assert forall|x: TxId| #[trigger] drop@.take(i as int + 1).contains(x) <==> drop@.take(i as int).contains(x) || x == k by {
                if drop@.take(i as int + 1).contains(x) {
                    let a = choose|a: int| 0 <= a < i + 1 && #[trigger] drop@.take(i as int + 1)[a] == x;
                    if a < i {
                        assert(drop@.take(i as int)[a] == x);
                    }
                }
                if x == k {
                    assert(drop@.take(i as int + 1)[i as int] == k);
                }
                if drop@.take(i as int).contains(x) {
                    let a = choose|a: int| 0 <= a < i && #[trigger] drop@.take(i as int)[a] == x;
                    assert(drop@.take(i as int + 1)[a] == x);
                }
            }
        }
        i = i + 1;
    }
    proof {
        assert(drop@.take(n as int) =~= drop@);
        assert forall|k: TxId| #[trigger] drop@.contains(k) implies m0.contains_key(k) && m0[k] < min by {
            let a = choose|a: int| 0 <= a < drop@.len() && #[trigger] drop@[a] == k;
        }
        assert(m@ =~= want);
    }
}

proof fn lemma_bump_pick_unique(b: Seq<Tx>, limit: u64, new: Tx, k: int, placed: Seq<ScheduledTx>, nr: int)
    requires
        is_bump_pick(b, limit, new, k, placed, nr),
    ensures
        bump_pick(b, limit, new, placed, nr) == k,
{
    let c = bump_pick(b, limit, new, placed, nr);
    assert(is_bump_pick(b, limit, new, c, placed, nr));
    if c < k {
        assert(bumpable(b, limit, new, b[c], placed, nr));
    } else if k < c {
        assert(bumpable(b, limit, new, b[k], placed, nr));
    }
}

proof fn lemma_blocks_value_suffix(s: Seq<PlannedBlock>, i: int)
    requires
        0 <= i <= s.len(),
    ensures
        0 <= blocks_value(s.skip(i)) <= blocks_value(s),
        0 <= blocks_tx_count(s.skip(i)) <= blocks_tx_count(s),
    decreases i,
{
    if i == 0 {
        assert(s.skip(0) =~= s);
        lemma_blocks_nonneg(s);
    } else {
        lemma_blocks_value_suffix(s, i - 1);
        assert(s.skip(i - 1).drop_first() =~= s.skip(i));
        lemma_blocks_nonneg(s.skip(i));
    }
}

proof fn lemma_blocks_nonneg(s: Seq<PlannedBlock>)
    ensures
        0 <= blocks_value(s),
        0 <= blocks_tx_count(s),
    decreases s.len(),
{
    if s.len() > 0 {
        lemma_blocks_nonneg(s.drop_first());
    }
}

/// Statistics of a planned block.
#[derive(Debug, Clone, Copy)]
pub struct BlockPlanStats {
    pub block_number: u64,
    pub tx_count: usize,
    pub gas_used: u64,
    pub gas_limit: u64,
    pub total_value: u64,
}

/// Statistics of the whole plan.
#[derive(Debug, Clone)]
pub struct LookaheadStats {
    pub lookahead_depth: usize,
    pub start_block: u64,
    pub total_planned_txs: usize,
    pub total_planned_value: u64,
    pub pending_count: usize,
    pub block_stats: Vec<BlockPlanStats>,
}

/// The priority rank of the first scheduled transaction with an id (0 when
/// there is none).
fn placed_rank_of(placed: &Vec<ScheduledTx>, id: TxId) -> (r: u8)
    ensures
        r == placed_rank(placed@, id),
{
    let n = placed.len();
    let mut i: usize = 0;
    while i < n
        invariant
            n == placed@.len(),
            i <= n,
            forall|j: int| 0 <= j < i ==> #[trigger] stx_txs(placed@)[j].id != id,
        decreases n - i,
    {
        if placed[i].tx.id == id {
            proof {
                lemma_first_id_index_is(stx_txs(placed@), id, i as int);
            }
            return placed[i].priority.rank();
        }
        i = i + 1;
    }
    proof {
        lemma_first_id_index(stx_txs(placed@), id);
        if has_id(stx_txs(placed@), id) {
            let j = choose|j: int| 0 <= j < stx_txs(placed@).len() && #[trigger] stx_txs(placed@)[j].id == id;
            assert(stx_txs(placed@)[j].id != id);
        }
    }
    0
}

/// Plans transactions over a window of upcoming blocks.
#[derive(Debug)]
pub struct LookaheadPlanner {
    /// Number of blocks to plan ahead
    lookahead_depth: usize,
    /// Gas limit per block
    block_gas_limit: u64,
    /// Number of the window's first block
    start_block: u64,
    /// Planned blocks
    planned_blocks: Vec<PlannedBlock>,
    /// Unscheduled transactions
    pending: Vec<ScheduledTx>,
    /// Which block each scheduled transaction went to
    tx_assignments: HashMap<TxId, u64>,
}

impl LookaheadPlanner {
    /// Number of blocks planned ahead.
    pub closed spec fn spec_depth(&self) -> usize {
        self.lookahead_depth
    }

    /// Gas limit of every block.
    pub closed spec fn spec_gas_limit(&self) -> u64 {
        self.block_gas_limit
    }

    /// Number of the window's first block.
    pub closed spec fn spec_start(&self) -> u64 {
        self.start_block
    }

    /// The planned blocks, first block first.
    pub closed spec fn spec_blocks(&self) -> Seq<PlannedBlock> {
        self.planned_blocks@
    }

    /// The transactions waiting to be scheduled.
    pub closed spec fn spec_pending(&self) -> Seq<ScheduledTx> {
        self.pending@
    }

    /// The block number each scheduled transaction went to.
    pub closed spec fn spec_assignments(&self) -> Map<TxId, u64> {
        self.tx_assignments@
    }

    /// The window holds `depth` consecutive blocks from `start`, each consistent
    /// and within the gas limit.
    pub open spec fn wf(&self) -> bool {
        let b = self.spec_blocks();
        &&& b.len() == self.spec_depth()
        &&& self.spec_start() + self.spec_depth() <= u64::MAX + 1
        &&& forall|i: int| #![trigger b[i]] 0 <= i < b.len() ==> {
            &&& b[i].wf()
            &&& b[i].number == self.spec_start() + i
            &&& b[i].gas_limit == self.spec_gas_limit()
        }
    }

    /// Create a planner over `lookahead_depth` empty blocks from `start_block`.
    pub fn new(start_block: u64, block_gas_limit: u64, lookahead_depth: usize) -> (p: Self)
        requires
            start_block + lookahead_depth <= u64::MAX + 1,
        ensures
            p.wf(),
            p.spec_depth() == lookahead_depth,
            p.spec_gas_limit() == block_gas_limit,
            p.spec_start() == start_block,
            txs_of(p.spec_blocks()) == Seq::new(lookahead_depth as nat, |i: int| Seq::<Tx>::empty()),
            p.spec_pending() == Seq::<ScheduledTx>::empty(),
            p.spec_assignments() == Map::<TxId, u64>::empty(),
    {
        let mut blocks: Vec<PlannedBlock> = Vec::new();
        let mut i: usize = 0;
        while i < lookahead_depth
            invariant
                i <= lookahead_depth,
                start_block + lookahead_depth <= u64::MAX + 1,
                blocks@.len() == i,
                forall|j: int| #![trigger blocks@[j]] 0 <= j < i ==> {
                    &&& blocks@[j].wf()
                    &&& blocks@[j].number == start_block + j
                    &&& blocks@[j].gas_limit == block_gas_limit
                    &&& blocks@[j].transactions@ == Seq::<Tx>::empty()
                },
            decreases lookahead_depth - i,
        {
            blocks.push(PlannedBlock::new(start_block + i as u64, block_gas_limit));
            i = i + 1;
        }
        let p = LookaheadPlanner {
            lookahead_depth,
            block_gas_limit,
            start_block,
            planned_blocks: blocks,
            pending: Vec::new(),
            tx_assignments: HashMap::new(),
        };
        proof {
            assert(txs_of(p.planned_blocks@) =~= Seq::new(lookahead_depth as nat, |i: int| Seq::<Tx>::empty()));
        }
        p
    }

    /// Add a transaction to be scheduled.
    pub fn add_tx(&mut self, scheduled_tx: ScheduledTx)
        requires
            old(self).wf(),
        ensures
            final(self).wf(),
            final(self).spec_pending() == old(self).spec_pending().push(scheduled_tx),
            final(self).spec_blocks() == old(self).spec_blocks(),
            final(self).spec_assignments() == old(self).spec_assignments(),
            final(self).spec_depth() == old(self).spec_depth(),
            final(self).spec_gas_limit() == old(self).spec_gas_limit(),
            final(self).spec_start() == old(self).spec_start(),
    {
        self.pending.push(scheduled_tx);
    }

    /// Whether offset `i` of the window may hold the scheduled transaction.
    fn may_hold(&self, stx: &ScheduledTx, i: usize) -> (b: bool)
        requires
            self.wf(),
            i < self.spec_depth(),
        ensures
            b == may_hold(*stx, i as int, self.spec_start(), self.spec_depth() as int),
    {
        let r = stx.priority.rank();
        if r == 0 && i != 0 {
            return false;
        }
        if r == 1 && i >= 2 {
            return false;
        }
        match stx.deadline_block {
            Some(d) => self.start_block + i as u64 <= d,
            None => true,
        }
    }

    /// Bump, from the block at offset `idx`, the lowest-fee transaction whose
    /// removal makes room for `new_tx`, which pays less than it and which was
    /// scheduled (among `placed`) with a priority below rank `new_rank` (the
    /// first such one on ties); returns its id.
    fn try_bump(&mut self, idx: usize, new_tx: &Tx, new_rank: u8, placed: &Vec<ScheduledTx>) -> (r: Option<TxId>)
        requires
            old(self).wf(),
            idx < old(self).spec_depth(),
        ensures
            final(self).wf(),
            final(self).spec_depth() == old(self).spec_depth(),
            final(self).spec_gas_limit() == old(self).spec_gas_limit(),
            final(self).spec_start() == old(self).spec_start(),
            final(self).spec_pending() == old(self).spec_pending(),
            final(self).spec_assignments() == old(self).spec_assignments(),
            ({
                let plan = txs_of(old(self).spec_blocks());
                let b = plan[idx as int];
                let limit = old(self).spec_gas_limit();
                if has_bump(b, limit, *new_tx, placed@, new_rank as int) {
                    let k = bump_pick(b, limit, *new_tx, placed@, new_rank as int);
                    &&& r == Some(b[k].id)
                    &&& txs_of(final(self).spec_blocks()) == plan.update(idx as int, b.remove(first_id_index(b, b[k].id)))
                } else {
                    &&& r is None
                    &&& *final(self) == *old(self)
                }
            }),
    {
        let ghost plan = txs_of(self.planned_blocks@);
        let ghost b = self.planned_blocks@[idx as int].transactions@;
        let ghost limit = self.block_gas_limit;
        let rem = self.planned_blocks[idx].remaining_gas();
        let n = self.planned_blocks[idx].transactions.len();
        let mut best: Option<usize> = None;
        let mut best_fee: u64 = 0;
        let mut i: usize = 0;
        assert(plan[idx as int] == b);
        while i < n
            invariant
                self.wf(),
                idx < self.planned_blocks@.len(),
                b == self.planned_blocks@[idx as int].transactions@,
                limit == self.block_gas_limit,
                n == b.len(),
                rem == limit - sum_gas(b),
                i <= n,
                best is None ==> forall|j: int| 0 <= j < i ==> !bumpable(b, limit, *new_tx, #[trigger] b[j], placed@, new_rank as int),
                best matches Some(k) ==> {
                    &&& k < i
                    &&& bumpable(b, limit, *new_tx, b[k as int], placed@, new_rank as int)
                    &&& best_fee == b[k as int].priority_fee_gwei
                    &&& forall|j: int| 0 <= j < i && bumpable(b, limit, *new_tx, #[trigger] b[j], placed@, new_rank as int) ==>
                        b[k as int].priority_fee_gwei <= b[j].priority_fee_gwei
                    &&& forall|j: int| 0 <= j < k && bumpable(b, limit, *new_tx, #[trigger] b[j], placed@, new_rank as int) ==>
                        b[j].priority_fee_gwei > b[k as int].priority_fee_gwei
                },
            decreases n - i,
        {
            let t_gas = self.planned_blocks[idx].transactions[i].gas_limit;
            let t_fee = self.planned_blocks[idx].transactions[i].priority_fee_gwei;
            let t_rank = placed_rank_of(placed, self.planned_blocks[idx].transactions[i].id);
            let ok = (rem as u128) + (t_gas as u128) >= (new_tx.gas_limit as u128)
                && t_rank > new_rank
                && new_tx.priority_fee_gwei > t_fee;
            if ok {
                match best {
                    None => {
                        best = Some(i);
                        best_fee = t_fee;
                    },
                    Some(_) => {
                        if t_fee < best_fee {
                            best = Some(i);
                            best_fee = t_fee;
                        }
                    },
                }
            }
            i = i + 1;
        }
        match best {
            Some(k) => {
                let id = self.planned_blocks[idx].transactions[k].id;
                proof {
                    lemma_bump_pick_unique(b, limit, *new_tx, k as int, placed@, new_rank as int);
                    lemma_first_id_index(b, id);
                }
                let ghost before = self.planned_blocks@;
                let _ = self.planned_blocks[idx].remove_tx(id);
                proof {
                    let after = self.planned_blocks@;
                    assert(txs_of(after) =~= plan.update(idx as int, b.remove(first_id_index(b, id))));
                    assert forall|i: int| #![trigger after[i]] 0 <= i < after.len() implies {
                        &&& after[i].wf()
                        &&& after[i].number == self.start_block + i
                        &&& after[i].gas_limit == self.block_gas_limit
                    } by {
                        if i != idx {
                            assert(after[i] == before[i]);
                        }
                    }
                }
                Some(id)
            },
            None => {
                proof {
                    if has_bump(b, limit, *new_tx, placed@, new_rank as int) {
                        let j = choose|j: int| 0 <= j < b.len() && bumpable(b, limit, *new_tx, #[trigger] b[j], placed@, new_rank as int);
                    }
                }
                None
            },
        }
    }

    /// Schedule one transaction: into the first block of its window with room;
    /// failing that, if urgent or high, into the first block of its window where
    /// a cheaper transaction of lower priority (as scheduled among `placed`) can
    /// be bumped for it. Returns whether it was placed.
    fn schedule_tx(&mut self, stx: ScheduledTx, placed: &Vec<ScheduledTx>) -> (scheduled: bool)
        requires
            old(self).wf(),
            room_for_value(txs_of(old(self).spec_blocks()), stx.tx),
        ensures
            final(self).wf(),
            final(self).spec_depth() == old(self).spec_depth(),
            final(self).spec_gas_limit() == old(self).spec_gas_limit(),
            final(self).spec_start() == old(self).spec_start(),
            final(self).spec_pending() == old(self).spec_pending(),
            ({
                let r = schedule(txs_of(old(self).spec_blocks()), old(self).spec_gas_limit(), old(self).spec_start(), stx, placed@);
                &&& txs_of(final(self).spec_blocks()) == r.0
                &&& final(self).spec_assignments() == assign_after(old(self).spec_assignments(), stx, old(self).spec_start(), r)
                &&& scheduled == r.1 is Some
            }),
    {
        let ghost plan = txs_of(self.planned_blocks@);
        let ghost limit = self.block_gas_limit;
        let ghost start = self.start_block;
        let depth = self.planned_blocks.len();
        let mut i: usize = 0;
        while i < depth
            invariant
                *self == *old(self),
                self.wf(),
                plan == txs_of(self.planned_blocks@),
                limit == self.block_gas_limit,
                start == self.start_block,
                depth == plan.len(),
                i <= depth,
                room_for_value(plan, stx.tx),
                first_fit(plan, limit, stx, start, 0) == first_fit(plan, limit, stx, start, i as int),
            decreases depth - i,
        {
            if self.may_hold(&stx, i) && self.planned_blocks[i].can_fit(&stx.tx) {
                let ghost before = self.planned_blocks@;
                proof {
                    let b = before[i as int].transactions@;
                    assert(plan[i as int] == b);
                    lemma_sum_push(b, stx.tx, gas_fn());
                    lemma_sum_push(b, stx.tx, value_fn());
                }
                let number = self.planned_blocks[i].number;
                self.planned_blocks[i].add_tx(stx.tx);
                self.tx_assignments.insert(stx.tx.id, number);
                proof {
                    let after = self.planned_blocks@;
                    assert(txs_of(after) =~= plan.update(i as int, plan[i as int].push(stx.tx)));
                    self.lemma_wf_after_update(before, i as int, stx.tx);
                }
                return true;
            }
            i = i + 1;
        }
        if stx.priority.rank() <= 1 {
            let mut i: usize = 0;
            while i < depth
                invariant
                    *self == *old(self),
                    self.wf(),
                    plan == txs_of(self.planned_blocks@),
                    limit == self.block_gas_limit,
                    start == self.start_block,
                    depth == plan.len(),
                    i <= depth,
                    first_fit(plan, limit, stx, start, 0) is None,
                    rank(stx.priority) <= 1,
                    room_for_value(plan, stx.tx),
                    first_bump(plan, limit, stx, start, 0, placed@) == first_bump(plan, limit, stx, start, i as int, placed@),
                decreases depth - i,
            {
                if self.may_hold(&stx, i) {
                    let ghost before = self.planned_blocks@;
                    let ghost b = plan[i as int];
                    match self.try_bump(i, &stx.tx, stx.priority.rank(), placed) {
                        Some(bumped) => {
                            let ghost mid = self.planned_blocks@;
                            let ghost rest = mid[i as int].transactions@;
                            proof {
                                assert(has_bump(b, limit, stx.tx, placed@, rank(stx.priority)));
                                let k = bump_pick(b, limit, stx.tx, placed@, rank(stx.priority));
                                let w = choose|w: int| 0 <= w < b.len() && bumpable(b, limit, stx.tx, #[trigger] b[w], placed@, rank(stx.priority));
                                lemma_bump_pick_exists(b, limit, stx.tx, w, placed@, rank(stx.priority));
                                assert(bumped == b[k].id);
                                assert(has_id(b, bumped));
                                lemma_first_id_index(b, bumped);
                                assert(txs_of(mid)[i as int] == rest);
                                assert(rest == b.remove(first_id_index(b, bumped)));
                                assert(mid[i as int].wf());
                                assert(mid[i as int].gas_limit == limit);
                                lemma_sum_push(rest, stx.tx, gas_fn());
                                lemma_sum_push(rest, stx.tx, value_fn());
                                let f = first_id_index(b, bumped);
                                lemma_sum_remove(b, f, value_fn());
                                vstd::arithmetic::mul::lemma_mul_nonnegative(b[f].priority_fee_gwei as int, b[f].gas_limit as int);
                                assert(sum_value(plan[i as int]) + stx.tx.spec_value() <= u64::MAX);
                            }
                            let number = self.planned_blocks[i].number;
                            self.planned_blocks[i].add_tx(stx.tx);
                            self.tx_assignments.insert(stx.tx.id, number);
                            self.tx_assignments.remove(&bumped);
                            proof {
                                let after = self.planned_blocks@;
                                assert(after[i as int].transactions@ == (if fits(rest, limit, stx.tx) { rest.push(stx.tx) } else { rest }));
                                assert(after_bump(b, limit, stx.tx, placed@, rank(stx.priority)) == (if fits(rest, limit, stx.tx) { rest.push(stx.tx) } else { rest }));
                                assert forall|k: int| 0 <= k < after.len() && k != i implies #[trigger] txs_of(after)[k] == plan[k] by {
                                    assert(after[k] == mid[k]);
                                    assert(txs_of(mid)[k] == plan[k]);
                                }
                                assert(txs_of(after) =~= plan.update(i as int, after_bump(b, limit, stx.tx, placed@, rank(stx.priority))));
                                self.lemma_wf_after_update(mid, i as int, stx.tx);
                            }
                            return true;
                        },
                        None => {},
                    }
                }
                i = i + 1;
            }
        }
        false
    }

    proof fn lemma_wf_after_update(&self, before: Seq<PlannedBlock>, i: int, t: Tx)
        requires
            0 <= i < before.len(),
            before.len() == self.planned_blocks@.len(),
            self.spec_depth() == before.len(),
            self.spec_start() + self.spec_depth() <= u64::MAX + 1,
            forall|k: int| 0 <= k < before.len() && k != i ==> #[trigger] self.planned_blocks@[k] == before[k],
            forall|k: int| #![trigger before[k]] 0 <= k < before.len() ==> {
                &&& before[k].wf()
                &&& before[k].number == self.spec_start() + k
                &&& before[k].gas_limit == self.spec_gas_limit()
            },
            self.planned_blocks@[i].wf(),
            self.planned_blocks@[i].number == before[i].number,
            self.planned_blocks@[i].gas_limit == before[i].gas_limit,
            self.planned_blocks@[i].transactions@ == before[i].transactions@
                || self.planned_blocks@[i].transactions@ == before[i].transactions@.push(t),
        ensures
            self.wf(),
    {
        let after = self.planned_blocks@;
        assert forall|k: int| #![trigger after[k]] 0 <= k < after.len() implies {
            &&& after[k].wf()
            &&& after[k].number == self.spec_start() + k
            &&& after[k].gas_limit == self.spec_gas_limit()
        } by {
            if k != i {
                assert(after[k] == before[k]);
            }
        }
    }

    /// Whether `plan` may be called: the pending transactions are worth at most
    /// `u64::MAX` together, and an urgent one still within its deadline finds a
    /// first block in the window.
    pub fn can_plan(&self) -> (b: bool)
        requires
            self.wf(),
        ensures
            b == (sum_value(stx_txs(self.spec_pending())) <= u64::MAX
                && urgent_has_room(self.spec_pending(), self.spec_start(), self.spec_depth() as int)),
    {
        let ghost s = self.pending@;
        let n = self.pending.len();
        proof {
            assert forall|t: Tx| #[trigger] value_fn()(t) >= 0 by {
                vstd::arithmetic::mul::lemma_mul_nonnegative(t.priority_fee_gwei as int, t.gas_limit as int);
            }
            assert(stx_txs(s.take(0)) =~= Seq::<Tx>::empty());
            assert(s.take(n as int) =~= s);
        }
        let mut total: u64 = 0;
        let mut i: usize = 0;
        let mut fits = true;
        while i < n
            invariant_except_break
                fits,
                total == sum_value(stx_txs(s.take(i as int))),
            invariant
                n == s.len(),
                s == self.pending@,
                s.take(n as int) == s,
                i <= n,
                forall|t: Tx| #[trigger] value_fn()(t) >= 0,
            ensures
                fits <==> sum_value(stx_txs(s)) <= u64::MAX,
            decreases n - i,
        {
            let tx = self.pending[i].tx;
            proof {
                lemma_prefix_value(s, i as int);
            }
            let g = tx.gas_limit as u128;
            let f = tx.priority_fee_gwei as u128;
            proof {
                vstd::arithmetic::mul::lemma_mul_upper_bound(g as int, u64::MAX as int, f as int, u64::MAX as int);
                assert(u64::MAX as int * u64::MAX as int <= u128::MAX - u64::MAX) by (nonlinear_arith);
            }
            let v = g * f;
            if (total as u128) + v > u64::MAX as u128 {
                fits = false;
                break;
            }
            total = total + (v as u64);
            i = i + 1;
        }
        proof {
            if fits {
                assert(s.take(n as int) =~= s);
            }
        }
        if !fits {
            return false;
        }
        if self.planned_blocks.len() > 0 {
            return true;
        }
        let mut j: usize = 0;
        while j < n
            invariant
                n == s.len(),
                s == self.pending@,
                self.spec_depth() == 0,
                j <= n,
                forall|a: int| 0 <= a < j ==> !(#[trigger] s[a].priority == TxPriority::Urgent
                    && (s[a].deadline_block matches Some(d) ==> self.spec_start() <= d)),
            decreases n - j,
        {
            let stx = self.pending[j];
            let due = match stx.deadline_block {
                Some(d) => self.start_block <= d,
                None => true,
            };
            if stx.priority.rank() == 0 && due {
                return false;
            }
            j = j + 1;
        }
        true
    }

    /// Plan the window: the pending transactions, most pressing priority first
    /// and then highest priority fee (ties in arrival order), are scheduled one by
    /// one into the emptied blocks; those that could not be placed stay pending.
    /// Every pending transaction ends up either planned or still pending, and
    /// none is bumped once placed (`lemma_plan_never_bumps`).
    pub fn plan(&mut self)
        requires
            old(self).wf(),
            sum_value(stx_txs(old(self).spec_pending())) <= u64::MAX,
            urgent_has_room(old(self).spec_pending(), old(self).spec_start(), old(self).spec_depth() as int),
        ensures
            final(self).wf(),
            final(self).spec_depth() == old(self).spec_depth(),
            final(self).spec_gas_limit() == old(self).spec_gas_limit(),
            final(self).spec_start() == old(self).spec_start(),
            exists|p: Seq<usize>| #[trigger] is_desc_order(plan_keys(old(self).spec_pending()), p)
                && plan_order(old(self).spec_pending(), p) && {
                let r = plan_run(permuted(old(self).spec_pending(), p), p.len() as int,
                    old(self).spec_depth() as nat, old(self).spec_gas_limit(), old(self).spec_start());
                &&& txs_of(final(self).spec_blocks()) == r.0
                &&& final(self).spec_assignments() == r.1
                &&& final(self).spec_pending() == r.2
            },
            plan_multiset(txs_of(final(self).spec_blocks())).add(stx_txs(final(self).spec_pending()).to_multiset())
                == stx_txs(old(self).spec_pending()).to_multiset(),
            forall|i: int, j: int| #![trigger final(self).spec_blocks()[i].transactions@[j]]
                0 <= i < final(self).spec_blocks().len() && 0 <= j < final(self).spec_blocks()[i].transactions@.len() ==>
                exists|a: int| 0 <= a < old(self).spec_pending().len()
                    && old(self).spec_pending()[a].tx == final(self).spec_blocks()[i].transactions@[j]
                    && #[trigger] may_hold(old(self).spec_pending()[a], i, old(self).spec_start(), old(self).spec_depth() as int),
    {
        let ghost pend = self.pending@;
        let ghost limit = self.block_gas_limit;
        let ghost start = self.start_block;
        let n = self.pending.len();
        let mut keys: Vec<u128> = Vec::new();
        let mut i: usize = 0;
        while i < n
            invariant
                n == self.pending@.len(),
                i <= n,
                keys@.len() == i,
                forall|j: int| 0 <= j < i ==> #[trigger] keys@[j] == plan_key(self.pending@[j]),
            decreases n - i,
        {
            let stx = self.pending[i];
            let r = stx.priority.rank() as u128;
            keys.push((3 - r) * 0x1_0000_0000_0000_0000 + stx.tx.priority_fee_gwei as u128);
            i = i + 1;
        }
        assert(keys@ =~= plan_keys(self.pending@));
        let order = sort_desc(&keys);
        let mut sorted: Vec<ScheduledTx> = Vec::new();
        let mut a: usize = 0;
        while a < n
            invariant
                n == self.pending@.len(),
                is_desc_order(keys@, order@),
                keys@.len() == n,
                a <= n,
                sorted@.len() == a,
                forall|c: int| 0 <= c < a ==> #[trigger] sorted@[c] == self.pending@[order@[c] as int],
            decreases n - a,
        {
            sorted.push(self.pending[order[a]]);
            a = a + 1;
        }
        assert(sorted@ =~= permuted(pend, order@));
        proof {
            lemma_sum_permuted(stx_txs(pend), order@, value_fn());
            assert(stx_txs(sorted@) =~= Seq::new(order@.len(), |a: int| stx_txs(pend)[order@[a] as int]));
            assert forall|t: Tx| #[trigger] value_fn()(t) >= 0 by {
                vstd::arithmetic::mul::lemma_mul_nonnegative(t.priority_fee_gwei as int, t.gas_limit as int);
            }
        }
        let depth = self.planned_blocks.len();
        let mut i: usize = 0;
        while i < depth
            invariant
                self.planned_blocks@.len() == depth,
                depth == self.lookahead_depth,
                self.start_block == start,
                self.block_gas_limit == limit,
                self.start_block + self.lookahead_depth <= u64::MAX + 1,
                i <= depth,
                forall|k: int| #![trigger self.planned_blocks@[k]] 0 <= k < depth ==> {
                    &&& self.planned_blocks@[k].wf()
                    &&& self.planned_blocks@[k].number == start + k
                    &&& self.planned_blocks@[k].gas_limit == limit
                },
                forall|k: int| 0 <= k < i ==> #[trigger] self.planned_blocks@[k].transactions@ == Seq::<Tx>::empty(),
            decreases depth - i,
        {
            let ghost before = self.planned_blocks@;
            self.planned_blocks[i].clear();
            proof {
                assert forall|k: int| #![trigger self.planned_blocks@[k]] 0 <= k < depth implies {
                    &&& self.planned_blocks@[k].wf()
                    &&& self.planned_blocks@[k].number == start + k
                    &&& self.planned_blocks@[k].gas_limit == limit
                } by {
                    if k != i {
                        assert(self.planned_blocks@[k] == before[k]);
                    }
                }
                assert forall|k: int| 0 <= k < i + 1 implies #[trigger] self.planned_blocks@[k].transactions@ == Seq::<Tx>::empty() by {
                    if k != i {
                        assert(self.planned_blocks@[k] == before[k]);
                    }
                }
            }
            i = i + 1;
        }
        self.tx_assignments.clear();
        proof {
            assert(txs_of(self.planned_blocks@) =~= plan_run(sorted@, 0, depth as nat, limit, start).0);
            lemma_plan_value_empty(depth as nat);
            lemma_plan_multiset_empty(depth as nat);
            assert(stx_txs(sorted@.take(0)) =~= Seq::<Tx>::empty());
            assert(stx_txs(Seq::<ScheduledTx>::empty()) =~= Seq::<Tx>::empty());
            assert(plan_multiset(txs_of(self.planned_blocks@)).add(stx_txs(Seq::<ScheduledTx>::empty()).to_multiset())
                =~= stx_txs(sorted@.take(0)).to_multiset());
        }
        let mut remaining: Vec<ScheduledTx> = Vec::new();
        let mut placed: Vec<ScheduledTx> = Vec::new();
        let mut k: usize = 0;
        while k < n
            invariant
                self.wf(),
                n == sorted@.len(),
                k <= n,
                depth == self.spec_depth(),
                self.spec_gas_limit() == limit,
                self.spec_start() == start,
                forall|t: Tx| #[trigger] value_fn()(t) >= 0,
                sum_value(stx_txs(sorted@)) <= u64::MAX,
                is_desc_order(plan_keys(pend), order@),
                sorted@ == permuted(pend, order@),
                plan_value(txs_of(self.spec_blocks())) <= sum_value(stx_txs(sorted@.take(k as int))),
                plan_multiset(txs_of(self.spec_blocks())).add(stx_txs(remaining@).to_multiset())
                    == stx_txs(sorted@.take(k as int)).to_multiset(),
                placed@ == sorted@.take(k as int),
                ({
                    let r = plan_run(sorted@, k as int, depth as nat, limit, start);
                    &&& txs_of(self.spec_blocks()) == r.0
                    &&& self.spec_assignments() == r.1
                    &&& remaining@ == r.2
                }),
            decreases n - k,
        {
            let stx = sorted[k];
            let ghost plan0 = txs_of(self.spec_blocks());
            proof {
                lemma_prefix_value(sorted@, k as int);
                assert forall|i: int| 0 <= i < plan0.len() implies sum_value(#[trigger] plan0[i]) + stx.tx.spec_value() <= u64::MAX by {
                    lemma_plan_value_ge(plan0, i);
                }
                lemma_plan_never_bumps(pend, order@, k as int, plan0, limit, start);
            }
            let scheduled = self.schedule_tx(stx, &placed);
            let ghost rem0 = remaining@;
            proof {
                let r = schedule(plan0, limit, start, stx, sorted@.take(k as int));
                match first_fit(plan0, limit, stx, start, 0) {
                    Some(i) => {
                        lemma_first_fit_some(plan0, limit, stx, start, 0, i);
                        lemma_plan_value_update(plan0, i, stx.tx);
                        lemma_plan_multiset_update(plan0, i, stx.tx);
                    },
                    None => {
                        assert(r.0 == plan0);
                    },
                }
            }
            if !scheduled {
                remaining.push(stx);
            }
            proof {
                broadcast use vstd::seq_lib::to_multiset_build;
                assert(stx_txs(sorted@.take(k as int + 1)) =~= stx_txs(sorted@.take(k as int)).push(stx.tx));
                assert(stx_txs(rem0.push(stx)) =~= stx_txs(rem0).push(stx.tx));
                let pm = plan_multiset(txs_of(self.spec_blocks()));
                if scheduled {
                    assert(pm.add(stx_txs(remaining@).to_multiset())
                        =~= stx_txs(sorted@.take(k as int + 1)).to_multiset());
                } else {
                    assert(pm.add(stx_txs(remaining@).to_multiset())
                        =~= stx_txs(sorted@.take(k as int + 1)).to_multiset());
                }
            }
            placed.push(stx);
            proof {
                assert(placed@ =~= sorted@.take(k as int + 1));
            }
            k = k + 1;
        }
        self.pending = remaining;
        proof {
            assert(sorted@.take(n as int) =~= sorted@);
            lemma_plan_key_order(pend, order@);
            lemma_multiset_permuted(stx_txs(pend), order@);
            assert(stx_txs(sorted@) =~= Seq::new(order@.len(), |a: int| stx_txs(pend)[order@[a] as int]));
            lemma_plan_respects_windows(sorted@, n as int, depth as nat, limit, start);
            let plan = plan_run(sorted@, n as int, depth as nat, limit, start).0;
            let fb = self.planned_blocks@;
            assert forall|i: int, j: int| #![trigger fb[i].transactions@[j]]
                0 <= i < fb.len() && 0 <= j < fb[i].transactions@.len() implies
                exists|a: int| 0 <= a < pend.len() && pend[a].tx == fb[i].transactions@[j]
                    && #[trigger] may_hold(pend[a], i, start, depth as int) by {
                assert(txs_of(fb)[i] == plan[i]);
                assert(plan[i][j] == fb[i].transactions@[j]);
                let a = choose|a: int| 0 <= a < n && sorted@[a].tx == plan[i][j] && #[trigger] may_hold(sorted@[a], i, start, depth as int);
                let a2 = order@[a] as int;
                assert(sorted@[a] == pend[a2]);
            }
        }
    }

    /// The plan for a block number, when the block is in the window.
    pub fn get_block_plan(&self, block_number: u64) -> (r: Option<&PlannedBlock>)
        requires
            self.wf(),
        ensures
            r is Some <==> self.spec_start() <= block_number < self.spec_start() + self.spec_depth(),
            r matches Some(b) ==> *b == self.spec_blocks()[block_number - self.spec_start()],
    {
        if block_number < self.start_block {
            return None;
        }
        let idx = block_number - self.start_block;
        if idx < self.planned_blocks.len() as u64 {
            Some(&self.planned_blocks[idx as usize])
        } else {
            None
        }
    }

    /// The plan for the window's first block.
    pub fn get_next_block(&self) -> (b: &PlannedBlock)
        requires
            self.wf(),
            self.spec_depth() > 0,
        ensures
            *b == self.spec_blocks()[0],
    {
        &self.planned_blocks[0]
    }

    /// Whether `advance` may be called: the window has a block, and the numbers
    /// of the moved window fit in a `u64`.
    pub fn can_advance(&self) -> (b: bool)
        ensures
            b == (self.spec_depth() > 0 && self.spec_start() + 1 + self.spec_depth() <= u64::MAX),
    {
        self.lookahead_depth > 0 && (self.lookahead_depth as u128) + (self.start_block as u128) + 1 <= u64::MAX as u128
    }

    /// Advance the window by one block: the first block leaves and is returned,
    /// an empty block joins at the end, and assignments to blocks before the new
    /// start are dropped.
    pub fn advance(&mut self) -> (completed: PlannedBlock)
        requires
            old(self).wf(),
            old(self).spec_depth() > 0,
            old(self).spec_start() + 1 + old(self).spec_depth() <= u64::MAX,
        ensures
            final(self).wf(),
            completed == old(self).spec_blocks()[0],
            final(self).spec_start() == old(self).spec_start() + 1,
            final(self).spec_depth() == old(self).spec_depth(),
            final(self).spec_gas_limit() == old(self).spec_gas_limit(),
            final(self).spec_pending() == old(self).spec_pending(),
            forall|i: int| 0 <= i < old(self).spec_depth() - 1 ==>
                #[trigger] final(self).spec_blocks()[i] == old(self).spec_blocks()[i + 1],
            final(self).spec_blocks()[old(self).spec_depth() - 1].transactions@ == Seq::<Tx>::empty(),
            final(self).spec_assignments() == old(self).spec_assignments().restrict(
                old(self).spec_assignments().dom().filter(|k: TxId| old(self).spec_assignments()[k] >= final(self).spec_start())),
    {
        let ghost before = self.planned_blocks@;
        let completed = self.planned_blocks.remove(0);
        self.start_block = self.start_block + 1;
        let d = self.lookahead_depth as u64;
        assert(d == self.lookahead_depth && d >= 1);
        let new_num = self.start_block + d - 1;
        self.planned_blocks.push(PlannedBlock::new(new_num, self.block_gas_limit));
        let from = self.start_block;
        keep_from(&mut self.tx_assignments, from);
        proof {
            let after = self.planned_blocks@;
            assert forall|i: int| 0 <= i < before.len() - 1 implies #[trigger] after[i] == before[i + 1] by {}
            assert forall|i: int| #![trigger after[i]] 0 <= i < after.len() implies {
                &&& after[i].wf()
                &&& after[i].number == self.start_block + i
                &&& after[i].gas_limit == self.block_gas_limit
            } by {
                if i < before.len() - 1 {
                    assert(after[i] == before[i + 1]);
                }
            }
        }
        completed
    }

    /// Whether the totals over the window fit, as `stats`, `total_planned_value`
    /// and `total_planned_txs` need.
    pub fn stats_fit(&self) -> (b: bool)
        ensures
            b == (blocks_value(self.spec_blocks()) <= u64::MAX && blocks_tx_count(self.spec_blocks()) <= usize::MAX),
    {
        let ghost s = self.planned_blocks@;
        let n = self.planned_blocks.len();
        let mut value: u128 = 0;
        let mut count: u128 = 0;
        let mut i: usize = n;
        proof {
            assert(s.skip(n as int) =~= Seq::<PlannedBlock>::empty());
        }
        while i > 0
            invariant
                s == self.planned_blocks@,
                n == s.len(),
                i <= n,
                value == blocks_value(s.skip(i as int)),
                count == blocks_tx_count(s.skip(i as int)),
                value <= u64::MAX,
                count <= usize::MAX,
            decreases i,
        {
            i = i - 1;
            proof {
                assert(s.skip(i as int).drop_first() =~= s.skip(i as int + 1));
                assert(s.skip(i as int)[0] == s[i as int]);
                lemma_blocks_value_suffix(s, i as int);
            }
            let b = &self.planned_blocks[i];
            let v = value + (b.total_value as u128);
            let c = count + (b.tx_count() as u128);
            if v > u64::MAX as u128 || c > usize::MAX as u128 {
                return false;
            }
            value = v;
            count = c;
        }
        proof {
            assert(s.skip(0) =~= s);
        }
        true
    }

    /// Total value planned over the window.
    pub fn total_planned_value(&self) -> (v: u64)
        requires
            blocks_value(self.spec_blocks()) <= u64::MAX,
        ensures
            v == blocks_value(self.spec_blocks()),
    {
        let ghost s = self.planned_blocks@;
        let n = self.planned_blocks.len();
        let mut total: u64 = 0;
        let mut i: usize = n;
        proof {
            assert(s.skip(n as int) =~= Seq::<PlannedBlock>::empty());
        }
        while i > 0
            invariant
                s == self.planned_blocks@,
                n == s.len(),
                i <= n,
                blocks_value(s) <= u64::MAX,
                total == blocks_value(s.skip(i as int)),
            decreases i,
        {
            i = i - 1;
            proof {
                assert(s.skip(i as int).drop_first() =~= s.skip(i as int + 1));
                lemma_blocks_value_suffix(s, i as int);
            }
            total = total + self.planned_blocks[i].total_value;
        }
        proof {
            assert(s.skip(0) =~= s);
        }
        total
    }

    /// Total number of transactions planned over the window.
    pub fn total_planned_txs(&self) -> (n: usize)
        requires
            blocks_tx_count(self.spec_blocks()) <= usize::MAX,
        ensures
            n == blocks_tx_count(self.spec_blocks()),
    {
        let ghost s = self.planned_blocks@;
        let len = self.planned_blocks.len();
        let mut total: usize = 0;
        let mut i: usize = len;
        proof {
            assert(s.skip(len as int) =~= Seq::<PlannedBlock>::empty());
        }
        while i > 0
            invariant
                s == self.planned_blocks@,
                len == s.len(),
                i <= len,
                blocks_tx_count(s) <= usize::MAX,
                total == blocks_tx_count(s.skip(i as int)),
            decreases i,
        {
            i = i - 1;
            proof {
                assert(s.skip(i as int).drop_first() =~= s.skip(i as int + 1));
                lemma_blocks_value_suffix(s, i as int);
            }
            total = total + self.planned_blocks[i].tx_count();
        }
        proof {
            assert(s.skip(0) =~= s);
        }
        total
    }

    /// Number of transactions waiting to be scheduled.
    pub fn pending_count(&self) -> (n: usize)
        ensures
            n == self.spec_pending().len(),
    {
        self.pending.len()
    }

    /// Number of blocks planned ahead.
    pub fn depth(&self) -> (d: usize)
        ensures
            d == self.spec_depth(),
    {
        self.lookahead_depth
    }

    /// Number of the window's first block.
    pub fn start_block(&self) -> (b: u64)
        ensures
            b == self.spec_start(),
    {
        self.start_block
    }

    /// The planned blocks, first block first.
    pub fn blocks(&self) -> (b: &[PlannedBlock])
        ensures
            b@ == self.spec_blocks(),
    {
        self.planned_blocks.as_slice()
    }

    /// Statistics of the plan: its window, totals, and each block's size, gas and value.
    pub fn stats(&self) -> (st: LookaheadStats)
        requires
            blocks_value(self.spec_blocks()) <= u64::MAX,
            blocks_tx_count(self.spec_blocks()) <= usize::MAX,
        ensures
            st.lookahead_depth == self.spec_depth(),
            st.start_block == self.spec_start(),
            st.total_planned_txs == blocks_tx_count(self.spec_blocks()),
            st.total_planned_value == blocks_value(self.spec_blocks()),
            st.pending_count == self.spec_pending().len(),
            st.block_stats@.len() == self.spec_blocks().len(),
            forall|i: int| 0 <= i < st.block_stats@.len() ==> {
                let b = #[trigger] self.spec_blocks()[i];
                &&& st.block_stats@[i].block_number == b.number
                &&& st.block_stats@[i].tx_count == b.transactions@.len()
                &&& st.block_stats@[i].gas_used == b.gas_used
                &&& st.block_stats@[i].gas_limit == b.gas_limit
                &&& st.block_stats@[i].total_value == b.total_value
            },
    {
        let n = self.planned_blocks.len();
        let mut block_stats: Vec<BlockPlanStats> = Vec::new();
        let mut i: usize = 0;
        while i < n
            invariant
                n == self.planned_blocks@.len(),
                i <= n,
                block_stats@.len() == i,
                forall|k: int| 0 <= k < i ==> {
                    let b = #[trigger] self.planned_blocks@[k];
                    &&& block_stats@[k].block_number == b.number
                    &&& block_stats@[k].tx_count == b.transactions@.len()
                    &&& block_stats@[k].gas_used == b.gas_used
                    &&& block_stats@[k].gas_limit == b.gas_limit
                    &&& block_stats@[k].total_value == b.total_value
                },
            decreases n - i,
        {
            let b = &self.planned_blocks[i];
            block_stats.push(BlockPlanStats {
                block_number: b.number,
                tx_count: b.tx_count(),
                gas_used: b.gas_used,
                gas_limit: b.gas_limit,
                total_value: b.total_value,
            });
            i = i + 1;
        }
        LookaheadStats {
            lookahead_depth: self.lookahead_depth,
            start_block: self.start_block,
            total_planned_txs: self.total_planned_txs(),
            total_planned_value: self.total_planned_value(),
            pending_count: self.pending.len(),
            block_stats,
        }
    }

    /// Drop the pending transactions whose deadline has passed; returns how many.
    pub fn remove_expired(&mut self, current_block: u64) -> (count: usize)
        requires
            old(self).wf(),
        ensures
            final(self).wf(),
            final(self).spec_pending() == old(self).spec_pending().filter(not_expired(current_block)),
            count == old(self).spec_pending().len() - final(self).spec_pending().len(),
            final(self).spec_blocks() == old(self).spec_blocks(),
            final(self).spec_assignments() == old(self).spec_assignments(),
            final(self).spec_depth() == old(self).spec_depth(),
            final(self).spec_gas_limit() == old(self).spec_gas_limit(),
            final(self).spec_start() == old(self).spec_start(),
    {
        let ghost s = self.pending@;
        let ghost pred = not_expired(current_block);
        let n = self.pending.len();
        let mut kept: Vec<ScheduledTx> = Vec::new();
        let mut i: usize = 0;
        proof {
            reveal(Seq::filter);
            assert(s.take(0) =~= Seq::<ScheduledTx>::empty());
        }
        while i < n
            invariant
                s == self.pending@,
                n == s.len(),
                i <= n,
                pred == not_expired(current_block),
                kept@ == s.take(i as int).filter(pred),
            decreases n - i,
        {
            proof {
                assert(s.take(i as int + 1) =~= s.take(i as int).push(s[i as int]));
                s.take(i as int).lemma_filter_push(s[i as int], pred);
            }
            let stx = self.pending[i];
            if !stx.is_expired(current_block) {
                kept.push(stx);
            }
            i = i + 1;
        }
        proof {
            assert(s.take(n as int) =~= s);
            s.lemma_filter_len(pred);
        }
        self.pending = kept;
        n - self.pending.len()
    }
}

/// The scheduled transactions whose deadline has not passed.
pub open spec fn not_expired(current_block: u64) -> spec_fn(ScheduledTx) -> bool {
    |stx: ScheduledTx| !stx.spec_expired(current_block)
}

proof fn lemma_first_fit_some(plan: Seq<Seq<Tx>>, limit: u64, stx: ScheduledTx, start: u64, i0: int, i: int)
    requires
        first_fit(plan, limit, stx, start, i0) == Some(i),
    ensures
        i0 <= i < plan.len(),
        may_hold(stx, i, start, plan.len() as int),
        fits(plan[i], limit, stx.tx),
    decreases plan.len() - i0,
{
    if !(i0 < 0 || i0 >= plan.len()) && !(may_hold(stx, i0, start, plan.len() as int) && fits(plan[i0], limit, stx.tx)) {
        lemma_first_fit_some(plan, limit, stx, start, i0 + 1, i);
    }
}

proof fn lemma_first_bump_some(plan: Seq<Seq<Tx>>, limit: u64, stx: ScheduledTx, start: u64, i0: int, i: int, placed: Seq<ScheduledTx>)
    requires
        first_bump(plan, limit, stx, start, i0, placed) == Some(i),
    ensures
        i0 <= i < plan.len(),
        may_hold(stx, i, start, plan.len() as int),
        has_bump(plan[i], limit, stx.tx, placed, rank(stx.priority)),
    decreases plan.len() - i0,
{
    if !(i0 < 0 || i0 >= plan.len()) && !(may_hold(stx, i0, start, plan.len() as int) && has_bump(plan[i0], limit, stx.tx, placed, rank(stx.priority))) {
        lemma_first_bump_some(plan, limit, stx, start, i0 + 1, i, placed);
    }
}

/// Planning keeps every transaction inside its window: each transaction the
/// plan places in a block comes from a scheduled transaction that may be held
/// there, so an urgent one sits only in the first block, a high one only in the
/// first two, and none in a block after its deadline. Each block's gas also
/// stays within the limit.
pub proof fn lemma_plan_respects_windows(sorted: Seq<ScheduledTx>, k: int, depth: nat, limit: u64, start: u64)
    requires
        0 <= k <= sorted.len(),
    ensures
        ({
            let plan = plan_run(sorted, k, depth, limit, start).0;
            &&& plan.len() == depth
            &&& forall|i: int| 0 <= i < plan.len() ==> sum_gas(#[trigger] plan[i]) <= limit
            &&& forall|i: int, j: int| #![trigger plan[i][j]] 0 <= i < plan.len() && 0 <= j < plan[i].len() ==>
                exists|a: int| 0 <= a < k && sorted[a].tx == plan[i][j] && #[trigger] may_hold(sorted[a], i, start, depth as int)
        }),
    decreases k,
{
    if k <= 0 {
        let plan = plan_run(sorted, k, depth, limit, start).0;
        assert forall|i: int| 0 <= i < plan.len() implies sum_gas(#[trigger] plan[i]) <= limit by {
            assert(plan[i] =~= Seq::<Tx>::empty());
        }
    } else {
        lemma_plan_respects_windows(sorted, k - 1, depth, limit, start);
        let prev = plan_run(sorted, k - 1, depth, limit, start).0;
        let stx = sorted[k - 1];
        let placed = sorted.take(k - 1);
        let r = schedule(prev, limit, start, stx, placed);
        let plan = r.0;
        assert(plan == plan_run(sorted, k, depth, limit, start).0);
        match first_fit(prev, limit, stx, start, 0) {
            Some(i) => {
                lemma_first_fit_some(prev, limit, stx, start, 0, i);
                lemma_sum_push(prev[i], stx.tx, gas_fn());
                assert forall|x: int, j: int| #![trigger plan[x][j]] 0 <= x < plan.len() && 0 <= j < plan[x].len() implies
                    exists|a: int| 0 <= a < k && sorted[a].tx == plan[x][j] && #[trigger] may_hold(sorted[a], x, start, depth as int) by {
                    if x == i && j == prev[i].len() {
                        assert(sorted[k - 1].tx == plan[x][j] && may_hold(sorted[k - 1], x, start, depth as int));
                    } else {
                        assert(plan[x][j] == prev[x][j]);
                        let a = choose|a: int| 0 <= a < k - 1 && sorted[a].tx == prev[x][j] && #[trigger] may_hold(sorted[a], x, start, depth as int);
                    }
                }
            },
            None => {
                if rank(stx.priority) <= 1 {
                    match first_bump(prev, limit, stx, start, 0, placed) {
                        Some(i) => {
                            lemma_first_bump_some(prev, limit, stx, start, 0, i, placed);
                            let b = prev[i];
                            let w = choose|w: int| 0 <= w < b.len() && bumpable(b, limit, stx.tx, #[trigger] b[w], placed, rank(stx.priority));
                            assert(is_bump_pick(b, limit, stx.tx, bump_pick(b, limit, stx.tx, placed, rank(stx.priority)), placed, rank(stx.priority))) by {
                                lemma_bump_pick_exists(b, limit, stx.tx, w, placed, rank(stx.priority));
                            }
                            let kk = bump_pick(b, limit, stx.tx, placed, rank(stx.priority));
                            lemma_first_id_index(b, b[kk].id);
                            let f = first_id_index(b, b[kk].id);
                            let rest = b.remove(f);
                            lemma_sum_remove(b, f, gas_fn());
                            lemma_sum_push(rest, stx.tx, gas_fn());
                            lemma_sum_nonneg(b, gas_fn());
                            assert forall|x: int, j: int| #![trigger plan[x][j]] 0 <= x < plan.len() && 0 <= j < plan[x].len() implies
                                exists|a: int| 0 <= a < k && sorted[a].tx == plan[x][j] && #[trigger] may_hold(sorted[a], x, start, depth as int) by {
                                if x == i {
                                    if j < rest.len() {
                                        let j2 = if j < f { j } else { j + 1 };
                                        assert(plan[x][j] == b[j2]);
                                        let a = choose|a: int| 0 <= a < k - 1 && sorted[a].tx == prev[x][j2] && #[trigger] may_hold(sorted[a], x, start, depth as int);
                                    } else {
                                        assert(sorted[k - 1].tx == plan[x][j] && may_hold(sorted[k - 1], x, start, depth as int));
                                    }
                                } else {
                                    assert(plan[x][j] == prev[x][j]);
                                    let a = choose|a: int| 0 <= a < k - 1 && sorted[a].tx == prev[x][j] && #[trigger] may_hold(sorted[a], x, start, depth as int);
                                }
                            }
                            assert forall|x: int| 0 <= x < plan.len() implies sum_gas(#[trigger] plan[x]) <= limit by {
                                if x == i {
                                    assert(gas_fn()(b[f]) >= 0);
                                }
                            }
                        },
                        None => {},
                    }
                }
            },
        }
    }
}

/// `p` takes the pending transactions `pend` most pressing priority first; among
/// equal priorities, the higher priority fee first; among equal priorities and
/// fees, in arrival order.
pub open spec fn plan_order(pend: Seq<ScheduledTx>, p: Seq<usize>) -> bool {
    forall|a: int, b: int| 0 <= a < b < p.len() ==> {
        let x = #[trigger] pend[p[a] as int];
        let y = #[trigger] pend[p[b] as int];
        ||| rank(x.priority) < rank(y.priority)
        ||| rank(x.priority) == rank(y.priority) && x.tx.priority_fee_gwei > y.tx.priority_fee_gwei
        ||| rank(x.priority) == rank(y.priority) && x.tx.priority_fee_gwei == y.tx.priority_fee_gwei
            && p[a] < p[b]
    }
}

/// The order in which `plan` schedules (the stable order of the plan keys) takes
/// the more pressing priority first and, within one priority, the higher
/// priority fee first, ties in arrival order. So of two pending transactions of
/// one priority, the one paying more is scheduled before the other.
pub proof fn lemma_plan_key_order(pend: Seq<ScheduledTx>, p: Seq<usize>)
    requires
        is_desc_order(plan_keys(pend), p),
    ensures
        plan_order(pend, p),
        forall|a: int, b: int| 0 <= a < b < p.len()
            && (#[trigger] pend[p[a] as int]).priority == (#[trigger] pend[p[b] as int]).priority
            ==> pend[p[a] as int].tx.priority_fee_gwei >= pend[p[b] as int].tx.priority_fee_gwei,
{
    let keys = plan_keys(pend);
    assert forall|a: int, b: int| 0 <= a < b < p.len() implies {
        let x = #[trigger] pend[p[a] as int];
        let y = #[trigger] pend[p[b] as int];
        ||| rank(x.priority) < rank(y.priority)
        ||| rank(x.priority) == rank(y.priority) && x.tx.priority_fee_gwei > y.tx.priority_fee_gwei
        ||| rank(x.priority) == rank(y.priority) && x.tx.priority_fee_gwei == y.tx.priority_fee_gwei
            && p[a] < p[b]
    } by {
        let i = p[a] as int;
        let j = p[b] as int;
        assert(desc_before(keys, i, j));
        let rx = rank(pend[i].priority);
        let ry = rank(pend[j].priority);
        let fx = pend[i].tx.priority_fee_gwei as int;
        let fy = pend[j].tx.priority_fee_gwei as int;
        assert(0 <= rx <= 3 && 0 <= ry <= 3);
        assert(0 <= fx < 0x1_0000_0000_0000_0000 && 0 <= fy < 0x1_0000_0000_0000_0000);
        let kx = (3 - rx) * 0x1_0000_0000_0000_0000 + fx;
        let ky = (3 - ry) * 0x1_0000_0000_0000_0000 + fy;
        assert(0 <= kx < 0x4_0000_0000_0000_0000 && 0 <= ky < 0x4_0000_0000_0000_0000) by (nonlinear_arith)
            requires
                kx == (3 - rx) * 0x1_0000_0000_0000_0000 + fx,
                ky == (3 - ry) * 0x1_0000_0000_0000_0000 + fy,
                0 <= fx < 0x1_0000_0000_0000_0000,
                0 <= fy < 0x1_0000_0000_0000_0000,
                0 <= rx <= 3,
                0 <= ry <= 3;
        assert(keys[i] == kx && keys[j] == ky);
        if rx > ry {
            assert(kx < ky) by (nonlinear_arith)
                requires
                    kx == (3 - rx) * 0x1_0000_0000_0000_0000 + fx,
                    ky == (3 - ry) * 0x1_0000_0000_0000_0000 + fy,
                    rx > ry,
                    0 <= fx < 0x1_0000_0000_0000_0000,
                    0 <= fy;
        } else if rx == ry {
            assert(kx - ky == fx - fy) by (nonlinear_arith)
                requires
                    kx == (3 - rx) * 0x1_0000_0000_0000_0000 + fx,
                    ky == (3 - ry) * 0x1_0000_0000_0000_0000 + fy,
                    rx == ry;
        }
    }
    assert forall|a: int, b: int| 0 <= a < b < p.len()
        && (#[trigger] pend[p[a] as int]).priority == (#[trigger] pend[p[b] as int]).priority
        implies pend[p[a] as int].tx.priority_fee_gwei >= pend[p[b] as int].tx.priority_fee_gwei by {
        assert(pend[p[a] as int] == pend[p[a] as int]);
    }
}

/// A transaction scheduled after another in plan order has a priority no more
/// pressing than it.
proof fn lemma_plan_order_rank(pend: Seq<ScheduledTx>, p: Seq<usize>, a: int, k: int)
    requires
        is_desc_order(plan_keys(pend), p),
        0 <= a < k < p.len(),
    ensures
        rank(permuted(pend, p)[a].priority) <= rank(permuted(pend, p)[k].priority),
{
    let keys = plan_keys(pend);
    let x = p[a] as int;
    let y = p[k] as int;
    assert(desc_before(keys, x, y));
    assert(keys[x] == plan_key(pend[x]) && keys[y] == plan_key(pend[y]));
    let rx = rank(pend[x].priority);
    let ry = rank(pend[y].priority);
    let fx = pend[x].tx.priority_fee_gwei as int;
    let fy = pend[y].tx.priority_fee_gwei as int;
    assert(0 <= rx <= 3 && 0 <= ry <= 3);
    if rx > ry {
        assert((3 - rx) * 0x1_0000_0000_0000_0000 + fx < (3 - ry) * 0x1_0000_0000_0000_0000 + fy) by (nonlinear_arith)
            requires
                rx > ry,
                0 <= fx < 0x1_0000_0000_0000_0000,
                0 <= fy,
                0 <= rx <= 3,
                0 <= ry <= 3;
    }
}

/// Planning never bumps: the pending transactions are scheduled most pressing
/// priority first, so when one is scheduled every transaction already placed has
/// a priority at least as pressing, and none of strictly lower priority is there
/// to bump. So a transaction, once placed, keeps its place (an urgent one stays
/// in the first block), and none is lost.
pub proof fn lemma_plan_never_bumps(pend: Seq<ScheduledTx>, p: Seq<usize>, k: int, plan: Seq<Seq<Tx>>, limit: u64, start: u64)
    requires
        is_desc_order(plan_keys(pend), p),
        0 <= k < p.len(),
    ensures
        schedule(plan, limit, start, permuted(pend, p)[k], permuted(pend, p).take(k)).2 is None,
{
    let sorted = permuted(pend, p);
    let stx = sorted[k];
    let placed = sorted.take(k);
    let nr = rank(stx.priority);
    assert forall|id: TxId| #[trigger] placed_rank(placed, id) <= nr by {
        lemma_first_id_index(stx_txs(placed), id);
        let i = first_id_index(stx_txs(placed), id);
        if i >= 0 {
            assert(placed[i] == sorted[i]);
            lemma_plan_order_rank(pend, p, i, k);
        }
    }
    if first_fit(plan, limit, stx, start, 0) is None && rank(stx.priority) <= 1 {
        if let Some(i) = first_bump(plan, limit, stx, start, 0, placed) {
            lemma_first_bump_some(plan, limit, stx, start, 0, i, placed);
            let b = plan[i];
            let j = choose|j: int| 0 <= j < b.len() && bumpable(b, limit, stx.tx, #[trigger] b[j], placed, nr);
            assert(placed_rank(placed, b[j].id) <= nr);
        }
    }
}

/// Where planning puts the `k`-th transaction of `sorted`, when it schedules it
/// after the first `k`: the offset of its block, or `None` when it stays pending.
pub open spec fn plan_slot(sorted: Seq<ScheduledTx>, k: int, depth: nat, limit: u64, start: u64) -> Option<int> {
    schedule(plan_run(sorted, k, depth, limit, start).0, limit, start, sorted[k], sorted.take(k)).1
}

/// `first_fit` finds a block whenever one from `j` on may hold the transaction
/// and has room for it.
proof fn lemma_first_fit_finds(plan: Seq<Seq<Tx>>, limit: u64, stx: ScheduledTx, start: u64, j: int, i: int)
    requires
        0 <= j <= i < plan.len(),
        may_hold(stx, i, start, plan.len() as int),
        fits(plan[i], limit, stx.tx),
    ensures
        first_fit(plan, limit, stx, start, j) is Some,
    decreases i - j,
{
    if !(may_hold(stx, j, start, plan.len() as int) && fits(plan[j], limit, stx.tx)) {
        lemma_first_fit_finds(plan, limit, stx, start, j + 1, i);
    }
}

/// Planning never takes a transaction out of a block: from one step to a later
/// one, each block's transactions keep their places and at most gain more.
proof fn lemma_plan_grows(pend: Seq<ScheduledTx>, p: Seq<usize>, k: int, m: int, depth: nat, limit: u64, start: u64)
    requires
        is_desc_order(plan_keys(pend), p),
        0 <= k <= m <= p.len(),
    ensures
        ({
            let sorted = permuted(pend, p);
            let pk = plan_run(sorted, k, depth, limit, start).0;
            let pm = plan_run(sorted, m, depth, limit, start).0;
            forall|i: int| 0 <= i < depth ==> (#[trigger] pk[i]).len() <= pm[i].len()
                && pm[i].take(pk[i].len() as int) == pk[i]
        }),
    decreases m - k,
{
    let sorted = permuted(pend, p);
    let pk = plan_run(sorted, k, depth, limit, start).0;
    if k == m {
        assert forall|i: int| 0 <= i < depth implies (#[trigger] pk[i]).len() <= pk[i].len()
            && pk[i].take(pk[i].len() as int) == pk[i] by {
            assert(pk[i].take(pk[i].len() as int) =~= pk[i]);
        }
    } else {
        lemma_plan_grows(pend, p, k, m - 1, depth, limit, start);
        let prev = plan_run(sorted, m - 1, depth, limit, start).0;
        let stx = sorted[m - 1];
        let r = schedule(prev, limit, start, stx, sorted.take(m - 1));
        let pm = plan_run(sorted, m, depth, limit, start).0;
        assert(pm == r.0);
        lemma_plan_never_bumps(pend, p, m - 1, prev, limit, start);
        lemma_plan_respects_windows(sorted, m - 1, depth, limit, start);
        match first_fit(prev, limit, stx, start, 0) {
            Some(j) => {
                lemma_first_fit_some(prev, limit, stx, start, 0, j);
                assert forall|i: int| 0 <= i < depth implies (#[trigger] pk[i]).len() <= pm[i].len()
                    && pm[i].take(pk[i].len() as int) == pk[i] by {
                    if i == j {
                        assert(pm[i] == prev[i].push(stx.tx));
                        assert(pm[i].take(pk[i].len() as int) =~= prev[i].take(pk[i].len() as int));
                    } else {
                        assert(pm[i] == prev[i]);
                    }
                }
            },
            None => {
                assert(pm == prev);
            },
        }
    }
}

/// Planning places a transaction whenever a later one of no less gas found a
/// block that the earlier one may be held in: planning only ever adds to
/// blocks, so the earlier one found at least as much room there.
pub proof fn lemma_plan_earlier_placed(pend: Seq<ScheduledTx>, p: Seq<usize>, a: int, b: int, i: int, depth: nat, limit: u64, start: u64)
    requires
        is_desc_order(plan_keys(pend), p),
        0 <= a < b < p.len(),
        plan_slot(permuted(pend, p), b, depth, limit, start) == Some(i),
        may_hold(permuted(pend, p)[a], i, start, depth as int),
        permuted(pend, p)[a].tx.gas_limit <= permuted(pend, p)[b].tx.gas_limit,
    ensures
        plan_slot(permuted(pend, p), a, depth, limit, start) is Some,
{
    let sorted = permuted(pend, p);
    let pa = plan_run(sorted, a, depth, limit, start).0;
    let pb = plan_run(sorted, b, depth, limit, start).0;
    let y = sorted[b];
    let x = sorted[a];
    lemma_plan_never_bumps(pend, p, b, pb, limit, start);
    lemma_plan_respects_windows(sorted, b, depth, limit, start);
    lemma_plan_respects_windows(sorted, a, depth, limit, start);
    let j = first_fit(pb, limit, y, start, 0);
    assert(j == Some(i));
    lemma_first_fit_some(pb, limit, y, start, 0, i);
    lemma_plan_grows(pend, p, a, b, depth, limit, start);
    assert(pa[i].len() <= pb[i].len() && pb[i].take(pa[i].len() as int) == pa[i]);
    assert(pb[i] =~= pa[i] + pb[i].skip(pa[i].len() as int));
    crate::seqs::lemma_sum_concat(pa[i], pb[i].skip(pa[i].len() as int), gas_fn());
    assert forall|t: Tx| #[trigger] gas_fn()(t) >= 0 by {}
    lemma_sum_nonneg(pb[i].skip(pa[i].len() as int), gas_fn());
    assert(fits(pa[i], limit, x.tx));
    lemma_first_fit_finds(pa, limit, x, start, 0, i);
}

/// The transactions left pending only grow as planning goes on.
proof fn lemma_pending_grows(sorted: Seq<ScheduledTx>, k: int, m: int, depth: nat, limit: u64, start: u64, x: ScheduledTx)
    requires
        0 <= k <= m <= sorted.len(),
        plan_run(sorted, k, depth, limit, start).2.contains(x),
    ensures
        plan_run(sorted, m, depth, limit, start).2.contains(x),
    decreases m - k,
{
    if k < m {
        lemma_pending_grows(sorted, k, m - 1, depth, limit, start, x);
        let prev = plan_run(sorted, m - 1, depth, limit, start).2;
        let q = choose|q: int| 0 <= q < prev.len() && #[trigger] prev[q] == x;
        let cur = plan_run(sorted, m, depth, limit, start).2;
        assert(cur == prev || cur == prev.push(sorted[m - 1]));
        assert(cur[q] == x);
    }
}

/// What `plan_slot` says is what the finished plan shows: a transaction given
/// an offset sits in that block of the plan, and one given none stays pending.
pub proof fn lemma_plan_slot_outcome(pend: Seq<ScheduledTx>, p: Seq<usize>, k: int, depth: nat, limit: u64, start: u64)
    requires
        is_desc_order(plan_keys(pend), p),
        0 <= k < p.len(),
    ensures
        ({
            let sorted = permuted(pend, p);
            let r = plan_run(sorted, p.len() as int, depth, limit, start);
            &&& plan_slot(sorted, k, depth, limit, start) matches Some(j) ==> 0 <= j < r.0.len() && r.0[j].contains(sorted[k].tx)
            &&& plan_slot(sorted, k, depth, limit, start) is None ==> r.2.contains(sorted[k])
        }),
{
    let sorted = permuted(pend, p);
    let n = p.len() as int;
    let pk = plan_run(sorted, k, depth, limit, start).0;
    let stx = sorted[k];
    let rs = schedule(pk, limit, start, stx, sorted.take(k));
    lemma_plan_never_bumps(pend, p, k, pk, limit, start);
    lemma_plan_respects_windows(sorted, k, depth, limit, start);
    lemma_plan_respects_windows(sorted, n, depth, limit, start);
    assert(plan_run(sorted, k + 1, depth, limit, start).0 == rs.0);
    match rs.1 {
        Some(j) => {
            let ff = first_fit(pk, limit, stx, start, 0);
            assert(ff == Some(j));
            lemma_first_fit_some(pk, limit, stx, start, 0, j);
            let pk1 = rs.0;
            assert(pk1[j] == pk[j].push(stx.tx));
            lemma_plan_grows(pend, p, k + 1, n, depth, limit, start);
            let pn = plan_run(sorted, n, depth, limit, start).0;
            assert(pn[j].take(pk1[j].len() as int) == pk1[j]);
            assert(pn[j][pk[j].len() as int] == pk1[j][pk[j].len() as int]);
            assert(pn[j][pk[j].len() as int] == stx.tx);
        },
        None => {
            let pend1 = plan_run(sorted, k + 1, depth, limit, start).2;
            assert(pend1 == plan_run(sorted, k, depth, limit, start).2.push(stx));
            assert(pend1[pend1.len() - 1] == stx);
            lemma_pending_grows(sorted, k + 1, n, depth, limit, start, stx);
        },
    }
}

/// Of two pending transactions of one priority, the one paying the higher
/// priority fee is scheduled first; so when the other one, needing no less gas,
/// gets a block that the first may be held in, the first is placed too. In
/// particular, when two such transactions compete for room for only one, the
/// higher-fee one is the one placed.
pub proof fn lemma_plan_prefers_higher_fee(pend: Seq<ScheduledTx>, p: Seq<usize>, a: int, b: int, i: int, depth: nat, limit: u64, start: u64)
    requires
        is_desc_order(plan_keys(pend), p),
        0 <= a < p.len(),
        0 <= b < p.len(),
        pend[p[a] as int].priority == pend[p[b] as int].priority,
        pend[p[a] as int].tx.priority_fee_gwei > pend[p[b] as int].tx.priority_fee_gwei,
        pend[p[a] as int].tx.gas_limit <= pend[p[b] as int].tx.gas_limit,
        may_hold(pend[p[a] as int], i, start, depth as int),
        plan_slot(permuted(pend, p), b, depth, limit, start) == Some(i),
    ensures
        a < b,
        plan_slot(permuted(pend, p), a, depth, limit, start) is Some,
{
    lemma_plan_key_order(pend, p);
    if b < a {
        assert(pend[p[b] as int] == pend[p[b] as int]);
        assert(pend[p[a] as int] == pend[p[a] as int]);
    }
    assert(a != b);
    lemma_plan_earlier_placed(pend, p, a, b, i, depth, limit, start);
}

proof fn lemma_bump_pick_exists(b: Seq<Tx>, limit: u64, new: Tx, w: int, placed: Seq<ScheduledTx>, nr: int)
    requires
        0 <= w < b.len(),
        bumpable(b, limit, new, b[w], placed, nr),
    ensures
        exists|k: int| is_bump_pick(b, limit, new, k, placed, nr),
{
    let n = b.len() as int;
    lemma_pick_in(b, limit, new, n, placed, nr);
    let k = choose|k: int| is_pick_in(b, limit, new, k, n, placed, nr);
    assert(is_bump_pick(b, limit, new, k, placed, nr));
}

/// `k` is the first position of the lowest fee among the bumpable transactions
/// of the first `n`.
spec fn is_pick_in(b: Seq<Tx>, limit: u64, new: Tx, k: int, n: int, placed: Seq<ScheduledTx>, nr: int) -> bool {
    &&& 0 <= k < n
    &&& bumpable(b, limit, new, b[k], placed, nr)
    &&& forall|j: int| 0 <= j < n && bumpable(b, limit, new, #[trigger] b[j], placed, nr) ==>
            b[k].priority_fee_gwei <= b[j].priority_fee_gwei
    &&& forall|j: int| 0 <= j < k && bumpable(b, limit, new, #[trigger] b[j], placed, nr) ==>
            b[j].priority_fee_gwei > b[k].priority_fee_gwei
}

proof fn lemma_pick_in(b: Seq<Tx>, limit: u64, new: Tx, n: int, placed: Seq<ScheduledTx>, nr: int)
    requires
        0 <= n <= b.len(),
        exists|j: int| 0 <= j < n && bumpable(b, limit, new, #[trigger] b[j], placed, nr),
    ensures
        exists|k: int| is_pick_in(b, limit, new, k, n, placed, nr),
    decreases n,
{
    let last = n - 1;
    if exists|j: int| 0 <= j < n - 1 && bumpable(b, limit, new, #[trigger] b[j], placed, nr) {
        let m = n - 1;
        lemma_pick_in(b, limit, new, m, placed, nr);
        let k = choose|k: int| is_pick_in(b, limit, new, k, m, placed, nr);
        if bumpable(b, limit, new, b[last], placed, nr) && b[last].priority_fee_gwei < b[k].priority_fee_gwei {
            assert(is_pick_in(b, limit, new, last, n, placed, nr));
        } else {
            assert(is_pick_in(b, limit, new, k, n, placed, nr));
        }
    } else {
        let j = choose|j: int| 0 <= j < n && bumpable(b, limit, new, #[trigger] b[j], placed, nr);
        assert(j == last);
        assert(is_pick_in(b, limit, new, last, n, placed, nr));
    }
}

/// Adding a transaction to one block adds its value to the plan's total.
proof fn lemma_plan_value_update(plan: Seq<Seq<Tx>>, i: int, x: Tx)
    requires
        0 <= i < plan.len(),
    ensures
        plan_value(plan.update(i, plan[i].push(x))) == plan_value(plan) + x.spec_value(),
    decreases plan.len(),
{
    let q = plan.update(i, plan[i].push(x));
    lemma_sum_push(plan[i], x, value_fn());
    if i < plan.len() - 1 {
        assert(q.drop_last() =~= plan.drop_last().update(i, plan.drop_last()[i].push(x)));
        lemma_plan_value_update(plan.drop_last(), i, x);
    } else {
        assert(q.drop_last() =~= plan.drop_last());
    }
}

/// A block's value is at most the plan's total.
proof fn lemma_plan_value_ge(plan: Seq<Seq<Tx>>, i: int)
    requires
        0 <= i < plan.len(),
        forall|t: Tx| #[trigger] value_fn()(t) >= 0,
    ensures
        sum_value(plan[i]) <= plan_value(plan),
    decreases plan.len(),
{
    lemma_plan_value_nonneg(plan.drop_last());
    lemma_sum_nonneg(plan.last(), value_fn());
    if i < plan.len() - 1 {
        assert(plan.drop_last()[i] == plan[i]);
        lemma_plan_value_ge(plan.drop_last(), i);
    }
}

proof fn lemma_plan_value_nonneg(plan: Seq<Seq<Tx>>)
    requires
        forall|t: Tx| #[trigger] value_fn()(t) >= 0,
    ensures
        plan_value(plan) >= 0,
    decreases plan.len(),
{
    if plan.len() > 0 {
        lemma_plan_value_nonneg(plan.drop_last());
        lemma_sum_nonneg(plan.last(), value_fn());
    }
}

/// The value of the first `k + 1` scheduled transactions is that of the first
/// `k` and the next one, and at most that of all.
proof fn lemma_prefix_value(s: Seq<ScheduledTx>, k: int)
    requires
        0 <= k < s.len(),
        forall|t: Tx| #[trigger] value_fn()(t) >= 0,
    ensures
        sum_value(stx_txs(s.take(k + 1))) == sum_value(stx_txs(s.take(k))) + s[k].tx.spec_value(),
        sum_value(stx_txs(s.take(k + 1))) <= sum_value(stx_txs(s)),
{
    assert(stx_txs(s.take(k + 1)) =~= stx_txs(s.take(k)).push(s[k].tx));
    lemma_sum_push(stx_txs(s.take(k)), s[k].tx, value_fn());
    assert(stx_txs(s) =~= stx_txs(s.take(k + 1)) + stx_txs(s.skip(k + 1)));
    lemma_sum_concat(stx_txs(s.take(k + 1)), stx_txs(s.skip(k + 1)), value_fn());
    lemma_sum_nonneg(stx_txs(s.skip(k + 1)), value_fn());
}

/// Summing over a rearrangement of a sequence gives the same total.
pub proof fn lemma_sum_permuted(s: Seq<Tx>, p: Seq<usize>, f: spec_fn(Tx) -> int)
    requires
        p.len() == s.len(),
        s.len() <= usize::MAX,
        forall|a: int| 0 <= a < p.len() ==> #[trigger] p[a] < s.len(),
        forall|k: int| 0 <= k < s.len() ==> #[trigger] p.contains(k as usize),
        forall|a: int, b: int| 0 <= a < b < p.len() ==> #[trigger] p[a] != #[trigger] p[b],
    ensures
        tx_sum(Seq::new(p.len(), |a: int| s[p[a] as int]), f) == tx_sum(s, f),
    decreases s.len(),
{
    let t = Seq::new(p.len(), |a: int| s[p[a] as int]);
    if s.len() == 0 {
        assert(t =~= s);
    } else {
        let n = s.len() as int;
        assert(p.contains((n - 1) as usize));
        let a = choose|a: int| 0 <= a < p.len() && p[a] == (n - 1) as usize;
        let q = p.remove(a);
        let d = s.drop_last();
        assert forall|x: int| 0 <= x < q.len() implies #[trigger] q[x] < d.len() by {
            let x2 = if x < a { x } else { x + 1 };
            assert(q[x] == p[x2]);
            if x2 < a { assert(p[x2] != p[a]); } else { assert(p[a] != p[x2]); }
        }
        assert forall|k: int| 0 <= k < d.len() implies #[trigger] q.contains(k as usize) by {
            assert(p.contains(k as usize));
            let b = choose|b: int| 0 <= b < p.len() && p[b] == k as usize;
            if b == a {
                assert(p[b] as int == k);
                assert(p[a] as int == n - 1);
            }
            if b < a { assert(q[b] == p[b]); } else { assert(q[b - 1] == p[b]); }
        }
        assert forall|x: int, y: int| 0 <= x < y < q.len() implies #[trigger] q[x] != #[trigger] q[y] by {
            let x2 = if x < a { x } else { x + 1 };
            let y2 = if y < a { y } else { y + 1 };
            assert(q[x] == p[x2] && q[y] == p[y2]);
        }
        lemma_sum_permuted(d, q, f);
        let u = Seq::new(q.len(), |x: int| d[q[x] as int]);
        assert(u =~= t.take(a) + t.skip(a + 1)) by {
            assert forall|x: int| 0 <= x < u.len() implies u[x] == (t.take(a) + t.skip(a + 1))[x] by {
                let x2 = if x < a { x } else { x + 1 };
                assert(q[x] == p[x2]);
            }
        }
        assert(p[a] as int == n - 1);
        assert(t[a] == s[n - 1]);
        assert(t =~= t.take(a) + (seq![s[n - 1]] + t.skip(a + 1)));
        lemma_sum_concat(t.take(a), seq![s[n - 1]] + t.skip(a + 1), f);
        lemma_sum_concat(seq![s[n - 1]], t.skip(a + 1), f);
        lemma_sum_concat(t.take(a), t.skip(a + 1), f);
        assert(seq![s[n - 1]].drop_first() =~= Seq::<Tx>::empty());
        assert(s =~= d.push(s[n - 1]));
        lemma_sum_push(d, s[n - 1], f);
        assert(tx_sum(seq![s[n - 1]], f) == f(s[n - 1]) + tx_sum(Seq::<Tx>::empty(), f));
        assert(tx_sum(u, f) == tx_sum(d, f));
        assert(tx_sum(t, f) == tx_sum(t.take(a), f) + f(s[n - 1]) + tx_sum(t.skip(a + 1), f));
        assert(tx_sum(u, f) == tx_sum(t.take(a), f) + tx_sum(t.skip(a + 1), f));
    }
}

proof fn lemma_plan_value_empty(d: nat)
    ensures
        plan_value(Seq::new(d, |i: int| Seq::<Tx>::empty())) == 0,
    decreases d,
{
    if d > 0 {
        let e = Seq::new(d, |i: int| Seq::<Tx>::empty());
        assert(e.drop_last() =~= Seq::new((d - 1) as nat, |i: int| Seq::<Tx>::empty()));
        lemma_plan_value_empty((d - 1) as nat);
    }
}

/// Adding a transaction to one block adds it to the plan's multiset.
proof fn lemma_plan_multiset_update(plan: Seq<Seq<Tx>>, i: int, x: Tx)
    requires
        0 <= i < plan.len(),
    ensures
        plan_multiset(plan.update(i, plan[i].push(x))) == plan_multiset(plan).insert(x),
    decreases plan.len(),
{
    broadcast use vstd::seq_lib::to_multiset_build;
    let q = plan.update(i, plan[i].push(x));
    if i < plan.len() - 1 {
        assert(q.drop_last() =~= plan.drop_last().update(i, plan.drop_last()[i].push(x)));
        lemma_plan_multiset_update(plan.drop_last(), i, x);
        assert(q.last() == plan.last());
        assert(plan_multiset(q) =~= plan_multiset(plan).insert(x));
    } else {
        assert(q.drop_last() =~= plan.drop_last());
        assert(plan_multiset(q) =~= plan_multiset(plan).insert(x));
    }
}

proof fn lemma_plan_multiset_empty(d: nat)
    ensures
        plan_multiset(Seq::new(d, |i: int| Seq::<Tx>::empty())) == Multiset::<Tx>::empty(),
    decreases d,
{
    if d > 0 {
        let e = Seq::new(d, |i: int| Seq::<Tx>::empty());
        assert(e.drop_last() =~= Seq::new((d - 1) as nat, |i: int| Seq::<Tx>::empty()));
        lemma_plan_multiset_empty((d - 1) as nat);
        assert(e.last().to_multiset() =~= Multiset::<Tx>::empty()) by {
            broadcast use vstd::seq_lib::group_to_multiset_ensures;
        }
        assert(plan_multiset(e) =~= Multiset::<Tx>::empty());
    }
}

/// A rearrangement of a sequence holds the same transactions, as a multiset.
pub proof fn lemma_multiset_permuted(s: Seq<Tx>, p: Seq<usize>)
    requires
        p.len() == s.len(),
        s.len() <= usize::MAX,
        forall|a: int| 0 <= a < p.len() ==> #[trigger] p[a] < s.len(),
        forall|k: int| 0 <= k < s.len() ==> #[trigger] p.contains(k as usize),
        forall|a: int, b: int| 0 <= a < b < p.len() ==> #[trigger] p[a] != #[trigger] p[b],
    ensures
        Seq::new(p.len(), |a: int| s[p[a] as int]).to_multiset() == s.to_multiset(),
    decreases s.len(),
{
    broadcast use vstd::seq_lib::to_multiset_build, vstd::seq_lib::lemma_multiset_commutative;
    let t = Seq::new(p.len(), |a: int| s[p[a] as int]);
    if s.len() == 0 {
        assert(t =~= s);
    } else {
        let n = s.len() as int;
        assert(p.contains((n - 1) as usize));
        let a = choose|a: int| 0 <= a < p.len() && p[a] == (n - 1) as usize;
        let q = p.remove(a);
        let d = s.drop_last();
        assert forall|x: int| 0 <= x < q.len() implies #[trigger] q[x] < d.len() by {
            let x2 = if x < a { x } else { x + 1 };
            assert(q[x] == p[x2]);
            if x2 < a { assert(p[x2] != p[a]); } else { assert(p[a] != p[x2]); }
        }
        assert forall|k: int| 0 <= k < d.len() implies #[trigger] q.contains(k as usize) by {
            assert(p.contains(k as usize));
            let b = choose|b: int| 0 <= b < p.len() && p[b] == k as usize;
            if b == a {
                assert(p[b] as int == k);
                assert(p[a] as int == n - 1);
            }
            if b < a { assert(q[b] == p[b]); } else { assert(q[b - 1] == p[b]); }
        }
        assert forall|x: int, y: int| 0 <= x < y < q.len() implies #[trigger] q[x] != #[trigger] q[y] by {
            let x2 = if x < a { x } else { x + 1 };
            let y2 = if y < a { y } else { y + 1 };
            assert(q[x] == p[x2] && q[y] == p[y2]);
        }
        lemma_multiset_permuted(d, q);
        let u = Seq::new(q.len(), |x: int| d[q[x] as int]);
        assert(u =~= t.take(a) + t.skip(a + 1)) by {
            assert forall|x: int| 0 <= x < u.len() implies u[x] == (t.take(a) + t.skip(a + 1))[x] by {
                let x2 = if x < a { x } else { x + 1 };
                assert(q[x] == p[x2]);
            }
        }
        assert(p[a] as int == n - 1);
        assert(t[a] == s[n - 1]);
        assert(t =~= t.take(a).push(s[n - 1]) + t.skip(a + 1));
        assert(s =~= d.push(s[n - 1]));
        assert(t.to_multiset() =~= u.to_multiset().insert(s[n - 1]));
    }
}

} // verus!
