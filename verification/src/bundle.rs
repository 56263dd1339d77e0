use vstd::prelude::*;
use crate::tx::{Tx, TxId};
use crate::seqs::{sum_gas, sum_value, sum_value_at, tx_sum, gas_fn, value_fn, value_at_fn, lemma_sum_push, lemma_sum_nonneg};
use crate::order::{ratio_gt, ratio_above, sort_ratio_desc, is_ratio_desc_order};

verus! {

/// Unique identifier for a bundle.
pub type BundleId = u64;

/// An atomic bundle of transactions, included together or not at all.
#[derive(Debug, Clone)]
pub struct Bundle {
    /// Unique bundle identifier
    pub id: BundleId,
    /// Transactions in the bundle (order matters)
    pub transactions: Vec<Tx>,
    /// Block number this bundle targets (None = any block)
    pub target_block: Option<u64>,
    /// Minimum timestamp for inclusion (None = no minimum)
    pub min_timestamp: Option<u64>,
    /// Maximum timestamp for inclusion (None = no maximum)
    pub max_timestamp: Option<u64>,
    /// Revert protection: if true, bundle is dropped if any tx reverts
    pub revert_protection: bool,
}

/// Sum of `f` over a prefix of a sequence, as accumulated from the front.
pub(crate) proof fn lemma_prefix_sum(s: Seq<Tx>, i: int, f: spec_fn(Tx) -> int)
    requires
        0 <= i < s.len(),
    ensures
        tx_sum(s.take(i + 1), f) == tx_sum(s.take(i), f) + f(s[i]),
{
    assert(s.take(i + 1) =~= s.take(i).push(s[i]));
    lemma_sum_push(s.take(i), s[i], f);
}

/// A prefix of non-negative terms sums to no more than the whole.
pub(crate) proof fn lemma_prefix_le(s: Seq<Tx>, i: int, f: spec_fn(Tx) -> int)
    requires
        0 <= i <= s.len(),
        forall|t: Tx| #[trigger] f(t) >= 0,
    ensures
        tx_sum(s.take(i), f) <= tx_sum(s, f),
{
    assert(s =~= s.take(i) + s.skip(i));
    crate::seqs::lemma_sum_concat(s.take(i), s.skip(i), f);
    lemma_sum_nonneg(s.skip(i), f);
}

impl Bundle {
    /// The bundle's gas and value totals fit in a `u64`.
    pub open spec fn sums_fit(&self) -> bool {
        sum_gas(self.transactions@) <= u64::MAX && sum_value(self.transactions@) <= u64::MAX
    }

    /// The bundle's value per gas as a `(value, gas)` ratio.
    pub open spec fn density(&self) -> (u64, u64) {
        (sum_value(self.transactions@) as u64, sum_gas(self.transactions@) as u64)
    }

    /// Whether the bundle's gas and value totals fit in a `u64`.
    pub fn totals_fit(&self) -> (b: bool)
        ensures
            b == self.sums_fit(),
    {
        let ghost s = self.transactions@;
        let n = self.transactions.len();
        let mut gas: u64 = 0;
        let mut value: u64 = 0;
        let mut i: usize = 0;
        proof {
            assert forall|t: Tx| #[trigger] value_fn()(t) >= 0 by {
                vstd::arithmetic::mul::lemma_mul_nonnegative(t.priority_fee_gwei as int, t.gas_limit as int);
            }
            assert forall|t: Tx| #[trigger] gas_fn()(t) >= 0 by {}
            assert(s.take(0) =~= Seq::<Tx>::empty());
            assert(s.take(n as int) =~= s);
        }
        while i < n
            invariant
                n == s.len(),
                s == self.transactions@,
                s.take(n as int) == s,
                i <= n,
                forall|t: Tx| #[trigger] value_fn()(t) >= 0,
                forall|t: Tx| #[trigger] gas_fn()(t) >= 0,
                gas == tx_sum(s.take(i as int), gas_fn()),
                value == tx_sum(s.take(i as int), value_fn()),
            decreases n - i,
        {
            let t = self.transactions[i];
            proof {
                lemma_prefix_sum(s, i as int, gas_fn());
                lemma_prefix_sum(s, i as int, value_fn());
                lemma_prefix_le(s, i as int + 1, gas_fn());
                lemma_prefix_le(s, i as int + 1, value_fn());
                vstd::arithmetic::mul::lemma_mul_upper_bound(t.gas_limit as int, u64::MAX as int, t.priority_fee_gwei as int, u64::MAX as int);
                assert(u64::MAX as int * u64::MAX as int <= u128::MAX - u64::MAX) by (nonlinear_arith);
            }
            let v = (t.gas_limit as u128) * (t.priority_fee_gwei as u128);
            proof {
                assert(value_fn()(t) == t.priority_fee_gwei * t.gas_limit);
                assert(v == t.priority_fee_gwei * t.gas_limit) by (nonlinear_arith)
                    requires v == t.gas_limit * t.priority_fee_gwei;
                assert(gas_fn()(t) == t.gas_limit);
                assert(s[i as int] == t);
            }
            if (gas as u128) + (t.gas_limit as u128) > u64::MAX as u128 || (value as u128) + v > u64::MAX as u128 {
                return false;
            }
            gas = gas + t.gas_limit;
            value = value + (v as u64);
            i = i + 1;
        }
        true
    }

    /// Create a bundle valid for any block, with revert protection.
    pub fn new(id: BundleId, transactions: Vec<Tx>) -> (b: Self)
        ensures
            b.id == id,
            b.transactions@ == transactions@,
            b.target_block is None,
            b.min_timestamp is None,
            b.max_timestamp is None,
            b.revert_protection,
    {
        Bundle { id, transactions, target_block: None, min_timestamp: None, max_timestamp: None, revert_protection: true }
    }

    /// Create a bundle targeting a specific block.
    pub fn for_block(id: BundleId, transactions: Vec<Tx>, target_block: u64) -> (b: Self)
        ensures
            b.id == id,
            b.transactions@ == transactions@,
            b.target_block == Some(target_block),
            b.min_timestamp is None,
            b.max_timestamp is None,
            b.revert_protection,
    {
        Bundle {
            id,
            transactions,
            target_block: Some(target_block),
            min_timestamp: None,
            max_timestamp: None,
            revert_protection: true,
        }
    }

    /// The bundle with a target block.
    pub fn with_target_block(self, block: u64) -> (b: Self)
        ensures
            b == (Bundle { target_block: Some(block), ..self }),
    {
        let mut b = self;
        b.target_block = Some(block);
        b
    }

    /// The bundle with timestamp constraints.
    pub fn with_timestamp_range(self, min: Option<u64>, max: Option<u64>) -> (b: Self)
        ensures
            b == (Bundle { min_timestamp: min, max_timestamp: max, ..self }),
    {
        let mut b = self;
        b.min_timestamp = min;
        b.max_timestamp = max;
        b
    }

    /// The bundle with revert protection set.
    pub fn with_revert_protection(self, enabled: bool) -> (b: Self)
        ensures
            b == (Bundle { revert_protection: enabled, ..self }),
    {
        let mut b = self;
        b.revert_protection = enabled;
        b
    }

    /// Total gas required by the bundle.
    pub fn total_gas(&self) -> (g: u64)
        requires
            sum_gas(self.transactions@) <= u64::MAX,
        ensures
            g == sum_gas(self.transactions@),
    {
        let n = self.transactions.len();
        let mut total: u64 = 0;
        let mut i: usize = 0;
        proof {
            assert(self.transactions@.take(0) =~= Seq::<Tx>::empty());
        }
        while i < n
            invariant
                n == self.transactions@.len(),
                i <= n,
                sum_gas(self.transactions@) <= u64::MAX,
                total == sum_gas(self.transactions@.take(i as int)),
            decreases n - i,
        {
            proof {
                lemma_prefix_sum(self.transactions@, i as int, gas_fn());
                lemma_prefix_le(self.transactions@, i as int + 1, gas_fn());
            }
            total = total + self.transactions[i].gas_limit;
            i = i + 1;
        }
        proof {
            assert(self.transactions@.take(n as int) =~= self.transactions@);
        }
        total
    }

    /// Total value (fees) of the bundle.
    pub fn total_value(&self) -> (v: u64)
        requires
            sum_value(self.transactions@) <= u64::MAX,
        ensures
            v == sum_value(self.transactions@),
    {
        let n = self.transactions.len();
        let mut total: u64 = 0;
        let mut i: usize = 0;
        proof {
            assert(self.transactions@.take(0) =~= Seq::<Tx>::empty());
            assert forall|t: Tx| #[trigger] value_fn()(t) >= 0 by {
                vstd::arithmetic::mul::lemma_mul_nonnegative(t.priority_fee_gwei as int, t.gas_limit as int);
            }
        }
        while i < n
            invariant
                n == self.transactions@.len(),
                i <= n,
                sum_value(self.transactions@) <= u64::MAX,
                forall|t: Tx| #[trigger] value_fn()(t) >= 0,
                total == sum_value(self.transactions@.take(i as int)),
            decreases n - i,
        {
            proof {
                lemma_prefix_sum(self.transactions@, i as int, value_fn());
                lemma_prefix_le(self.transactions@, i as int + 1, value_fn());
                lemma_prefix_le(self.transactions@.take(i as int + 1), i as int, value_fn());
                assert(self.transactions@.take(i as int + 1).take(i as int) =~= self.transactions@.take(i as int));
            }
            total = total + self.transactions[i].value();
            i = i + 1;
        }
        proof {
            assert(self.transactions@.take(n as int) =~= self.transactions@);
        }
        total
    }

    /// Total value of the bundle at a base fee.
    pub fn total_value_at_base_fee(&self, base_fee: u64) -> (v: u64)
        requires
            sum_value_at(self.transactions@, base_fee) <= u64::MAX,
        ensures
            v == sum_value_at(self.transactions@, base_fee),
    {
        let n = self.transactions.len();
        let mut total: u64 = 0;
        let mut i: usize = 0;
        proof {
            assert(self.transactions@.take(0) =~= Seq::<Tx>::empty());
            assert forall|t: Tx| #[trigger] value_at_fn(base_fee)(t) >= 0 by {
                t.lemma_value_at_le(base_fee);
            }
        }
        while i < n
            invariant
                n == self.transactions@.len(),
                i <= n,
                sum_value_at(self.transactions@, base_fee) <= u64::MAX,
                forall|t: Tx| #[trigger] value_at_fn(base_fee)(t) >= 0,
                total == sum_value_at(self.transactions@.take(i as int), base_fee),
            decreases n - i,
        {
            proof {
                lemma_prefix_sum(self.transactions@, i as int, value_at_fn(base_fee));
                lemma_prefix_le(self.transactions@, i as int + 1, value_at_fn(base_fee));
                lemma_prefix_le(self.transactions@.take(i as int + 1), i as int, value_at_fn(base_fee));
                assert(self.transactions@.take(i as int + 1).take(i as int) =~= self.transactions@.take(i as int));
            }
            total = total + self.transactions[i].value_at_base_fee(base_fee);
            i = i + 1;
        }
        proof {
            assert(self.transactions@.take(n as int) =~= self.transactions@);
        }
        total
    }

    /// The bundle's value per gas as a `(value, gas)` ratio.
    pub fn density_ratio(&self) -> (r: (u64, u64))
        requires
            self.sums_fit(),
        ensures
            r == self.density(),
    {
        (self.total_value(), self.total_gas())
    }

    /// Number of transactions in the bundle.
    pub fn tx_count(&self) -> (n: usize)
        ensures
            n == self.transactions@.len(),
    {
        self.transactions.len()
    }

    /// Whether the bundle is empty.
    pub fn is_empty(&self) -> (b: bool)
        ensures
            b == (self.transactions@.len() == 0),
    {
        self.transactions.len() == 0
    }

    /// Whether the bundle is valid for a block number.
    pub open spec fn valid_for_block(&self, block_number: u64) -> bool {
        match self.target_block {
            Some(target) => target == block_number,
            None => true,
        }
    }

    /// Whether the bundle is valid for a block number.
    pub fn is_valid_for_block(&self, block_number: u64) -> (b: bool)
        ensures
            b == self.valid_for_block(block_number),
    {
        match self.target_block {
            Some(target) => target == block_number,
            None => true,
        }
    }

    /// Whether the bundle is valid at a timestamp.
    pub fn is_valid_for_timestamp(&self, timestamp: u64) -> (b: bool)
        ensures
            b == ((self.min_timestamp matches Some(min) ==> timestamp >= min)
                && (self.max_timestamp matches Some(max) ==> timestamp <= max)),
    {
        if let Some(min) = self.min_timestamp {
            if timestamp < min {
                return false;
            }
        }
        if let Some(max) = self.max_timestamp {
            if timestamp > max {
                return false;
            }
        }
        true
    }

    /// Whether every transaction can pay the base fee.
    pub fn can_afford_base_fee(&self, base_fee: u64) -> (b: bool)
        ensures
            b == forall|i: int| 0 <= i < self.transactions@.len() ==> #[trigger] self.transactions@[i].affords(base_fee),
    {
        let n = self.transactions.len();
        let mut i: usize = 0;
        while i < n
            invariant
                n == self.transactions@.len(),
                i <= n,
                forall|j: int| 0 <= j < i ==> #[trigger] self.transactions@[j].affords(base_fee),
            decreases n - i,
        {
            if !self.transactions[i].can_afford_base_fee(base_fee) {
                return false;
            }
            i = i + 1;
        }
        true
    }

    /// The ids of the bundle's transactions, in order.
    pub fn tx_ids(&self) -> (ids: Vec<TxId>)
        ensures
            ids@ == self.transactions@.map_values(|t: Tx| t.id),
    {
        let n = self.transactions.len();
        let mut ids: Vec<TxId> = Vec::new();
        let mut i: usize = 0;
        while i < n
            invariant
                n == self.transactions@.len(),
                i <= n,
                ids@ == self.transactions@.take(i as int).map_values(|t: Tx| t.id),
            decreases n - i,
        {
            ids.push(self.transactions[i].id);
            proof {
                assert(self.transactions@.take(i as int + 1) =~= self.transactions@.take(i as int).push(self.transactions@[i as int]));
                assert(ids@ =~= self.transactions@.take(i as int + 1).map_values(|t: Tx| t.id));
            }
            i = i + 1;
        }
        proof {
            assert(self.transactions@.take(n as int) =~= self.transactions@);
        }
        ids
    }
}

/// No two bundles share an id.
pub open spec fn bundle_ids_distinct(s: Seq<Bundle>) -> bool {
    forall|i: int, j: int| 0 <= i < j < s.len() ==> #[trigger] s[i].id != #[trigger] s[j].id
}

/// Some bundle has the id.
pub open spec fn has_bundle(s: Seq<Bundle>, id: BundleId) -> bool {
    exists|i: int| 0 <= i < s.len() && #[trigger] s[i].id == id
}

/// The position of a bundle with the id (unique when ids are distinct).
pub open spec fn bundle_index(s: Seq<Bundle>, id: BundleId) -> int {
    choose|i: int| 0 <= i < s.len() && #[trigger] s[i].id == id
}

/// Every bundle's totals fit in a `u64`.
pub open spec fn all_fit(s: Seq<Bundle>) -> bool {
    forall|i: int| 0 <= i < s.len() ==> #[trigger] s[i].sums_fit()
}

/// The value-per-gas ratios of the bundles, in order.
pub open spec fn densities(s: Seq<Bundle>) -> Seq<(u64, u64)> {
    s.map_values(|b: Bundle| b.density())
}

/// `k` is the first position of a lowest value density.
pub open spec fn is_first_min_density(s: Seq<Bundle>, k: int) -> bool {
    &&& 0 <= k < s.len()
    &&& forall|j: int| 0 <= j < s.len() ==> !ratio_gt(s[k].density(), #[trigger] s[j].density())
    &&& forall|j: int| 0 <= j < k ==> ratio_gt(#[trigger] s[j].density(), s[k].density())
}

/// The bundle has expired at `now`: its target block, or with `by_timestamp`
/// its latest timestamp, lies before `now`.
pub open spec fn expired(b: Bundle, by_timestamp: bool, now: u64) -> bool {
    if by_timestamp {
        b.max_timestamp matches Some(t) && t < now
    } else {
        b.target_block matches Some(t) && t < now
    }
}

/// The bundles that have not expired at `now`.
pub open spec fn live(by_timestamp: bool, now: u64) -> spec_fn(Bundle) -> bool {
    |b: Bundle| !expired(b, by_timestamp, now)
}

/// The bundles valid for a block number.
pub open spec fn valid_at(block_number: u64) -> spec_fn(Bundle) -> bool {
    |b: Bundle| b.valid_for_block(block_number)
}

/// The value-per-gas ratios of referenced bundles, in order.
pub open spec fn ref_densities<'a>(s: Seq<&'a Bundle>) -> Seq<(u64, u64)> {
    s.map_values(|b: &'a Bundle| b.density())
}

/// `r` lists the bundles of `s` in the stable order of decreasing value density.
pub open spec fn listed_by_density<'a>(s: Seq<Bundle>, r: Seq<&'a Bundle>) -> bool {
    exists|p: Seq<usize>| is_ratio_desc_order(densities(s), p) && r.len() == s.len()
        && forall|a: int| 0 <= a < r.len() ==> r[a] == s[#[trigger] p[a] as int]
}

proof fn lemma_bundle_index(s: Seq<Bundle>, k: int)
    requires
        bundle_ids_distinct(s),
        0 <= k < s.len(),
    ensures
        bundle_index(s, s[k].id) == k,
{
    let id = s[k].id;
    assert(0 <= k < s.len() && s[k].id == id);
    let i = bundle_index(s, id);
    if i != k {
        if i < k {
            assert(s[i].id != s[k].id);
        } else {
            assert(s[k].id != s[i].id);
        }
    }
}

proof fn lemma_distinct_remove(s: Seq<Bundle>, k: int)
    requires
        bundle_ids_distinct(s),
        all_fit(s),
        0 <= k < s.len(),
    ensures
        bundle_ids_distinct(s.remove(k)),
        all_fit(s.remove(k)),
        forall|id: BundleId| has_bundle(s.remove(k), id) ==> has_bundle(s, id),
{
    let r = s.remove(k);
    assert forall|i: int, j: int| 0 <= i < j < r.len() implies #[trigger] r[i].id != #[trigger] r[j].id by {
        let i2 = if i < k { i } else { i + 1 };
        let j2 = if j < k { j } else { j + 1 };
        assert(r[i] == s[i2] && r[j] == s[j2]);
    }
    assert forall|i: int| 0 <= i < r.len() implies #[trigger] r[i].sums_fit() by {
        let i2 = if i < k { i } else { i + 1 };
        assert(r[i] == s[i2]);
    }
    assert forall|id: BundleId| has_bundle(r, id) implies has_bundle(s, id) by {
        let i = choose|i: int| 0 <= i < r.len() && #[trigger] r[i].id == id;
        let i2 = if i < k { i } else { i + 1 };
        assert(r[i] == s[i2]);
    }
}

/// Position of the first bundle with the id.
fn find_bundle(v: &Vec<Bundle>, id: BundleId) -> (k: Option<usize>)
    ensures
        k is None <==> !has_bundle(v@, id),
        k matches Some(k) ==> k < v@.len() && v@[k as int].id == id,
{
    let n = v.len();
    let mut i: usize = 0;
    while i < n
        invariant
            n == v@.len(),
            i <= n,
            forall|j: int| 0 <= j < i ==> #[trigger] v@[j].id != id,
        decreases n - i,
    {
        if v[i].id == id {
            return Some(i);
        }
        i = i + 1;
    }
    None
}

/// Position of the first bundle of lowest value density; `None` when empty.
fn first_min_density(v: &Vec<Bundle>) -> (k: Option<usize>)
    requires
        all_fit(v@),
    ensures
        k is None <==> v@.len() == 0,
        k matches Some(k) ==> is_first_min_density(v@, k as int),
{
    let n = v.len();
    if n == 0 {
        return None;
    }
    let mut best: usize = 0;
    let mut best_d = v[0].density_ratio();
    let mut i: usize = 1;
    while i < n
        invariant
            n == v@.len(),
            all_fit(v@),
            0 <= best < i <= n,
            best_d == v@[best as int].density(),
            forall|j: int| 0 <= j < i ==> !ratio_gt(v@[best as int].density(), #[trigger] v@[j].density()),
            forall|j: int| 0 <= j < best ==> ratio_gt(#[trigger] v@[j].density(), v@[best as int].density()),
        decreases n - i,
    {
        let d = v[i].density_ratio();
        if ratio_above(best_d, d) {
            proof {
                assert forall|j: int| 0 <= j < i implies ratio_gt(#[trigger] v@[j].density(), d) by {
                    crate::order::lemma_ratio_ge_gt(v@[j].density(), v@[best as int].density(), d);
                }
            }
            best = i;
            best_d = d;
        }
        i = i + 1;
    }
    Some(best)
}

/// Remove, in place and keeping order, the bundles that have expired at `now`.
fn drop_expired(v: &mut Vec<Bundle>, by_timestamp: bool, now: u64) -> (n: usize)
    ensures
        final(v)@ == old(v)@.filter(live(by_timestamp, now)),
        n == old(v)@.len() - final(v)@.len(),
{
    let old_len = v.len();
    let ghost s = v@;
    let ghost pred = live(by_timestamp, now);
    let ghost mut j: int = 0;
    let mut i: usize = 0;
    proof {
        reveal(Seq::filter);
        assert(s.take(0) =~= Seq::<Bundle>::empty());
        assert(s.skip(0) =~= s);
        assert(v@ =~= s.take(0).filter(pred) + s.skip(0));
    }
    while i < v.len()
        invariant
            0 <= j <= s.len(),
            pred == live(by_timestamp, now),
            v@ == s.take(j).filter(pred) + s.skip(j),
            i == s.take(j).filter(pred).len(),
        decreases v@.len() - i,
    {
        proof {
            assert(v@[i as int] == s[j]);
            assert(s.take(j + 1) =~= s.take(j).push(s[j]));
            s.take(j).lemma_filter_push(s[j], pred);
        }
        let gone = if by_timestamp {
            match v[i].max_timestamp { Some(t) => t < now, None => false }
        } else {
            match v[i].target_block { Some(t) => t < now, None => false }
        };
        if gone {
            v.remove(i);
            proof {
                assert(v@ =~= s.take(j + 1).filter(pred) + s.skip(j + 1));
            }
        } else {
            i = i + 1;
            proof {
                assert(v@ =~= s.take(j + 1).filter(pred) + s.skip(j + 1));
            }
        }
        proof { j = j + 1; }
    }
    proof {
        assert(s.take(j).filter(pred).len() <= s.take(j).len()) by {
            s.take(j).lemma_filter_len(pred);
        }
        assert(j == s.len());
        assert(s.take(j) =~= s);
        assert(v@ =~= s.filter(pred));
    }
    old_len - v.len()
}

/// A pool of bundles awaiting inclusion, at most one per id.
#[derive(Debug)]
pub struct BundlePool {
    /// All bundles, in arrival order
    bundles: Vec<Bundle>,
    /// Maximum number of bundles to hold
    max_size: usize,
    /// Stats
    total_received: u64,
    total_included: u64,
    total_expired: u64,
}

/// Statistics about the bundle pool.
#[derive(Debug, Clone)]
pub struct BundlePoolStats {
    pub count: usize,
    pub total_received: u64,
    pub total_included: u64,
    pub total_expired: u64,
}

impl Default for BundlePoolStats {
    fn default() -> (st: Self)
        ensures
            st.count == 0 && st.total_received == 0 && st.total_included == 0 && st.total_expired == 0,
    {
        BundlePoolStats { count: 0, total_received: 0, total_included: 0, total_expired: 0 }
    }
}

impl Default for BundlePool {
    fn default() -> (p: Self)
        ensures
            p.wf(),
            p.spec_bundles() == Seq::<Bundle>::empty(),
            p.spec_max_size() == 0,
            p.spec_received() == 0,
            p.spec_included() == 0,
            p.spec_expired() == 0,
    {
        BundlePool::new(0)
    }
}

impl BundlePool {
    /// The bundles held, in arrival order.
    pub closed spec fn spec_bundles(&self) -> Seq<Bundle> {
        self.bundles@
    }

    /// Capacity.
    pub closed spec fn spec_max_size(&self) -> usize {
        self.max_size
    }

    /// Bundles offered so far.
    pub closed spec fn spec_received(&self) -> u64 {
        self.total_received
    }

    /// Bundles marked included so far.
    pub closed spec fn spec_included(&self) -> u64 {
        self.total_included
    }

    /// Bundles dropped as expired so far.
    pub closed spec fn spec_expired(&self) -> u64 {
        self.total_expired
    }

    /// Ids are distinct and every bundle's totals fit in a `u64`.
    pub open spec fn wf(&self) -> bool {
        bundle_ids_distinct(self.spec_bundles()) && all_fit(self.spec_bundles())
    }

    /// Create a new empty bundle pool.
    pub fn new(max_size: usize) -> (p: Self)
        ensures
            p.wf(),
            p.spec_bundles() == Seq::<Bundle>::empty(),
            p.spec_max_size() == max_size,
            p.spec_received() == 0,
            p.spec_included() == 0,
            p.spec_expired() == 0,
    {
        BundlePool { bundles: Vec::new(), max_size, total_received: 0, total_included: 0, total_expired: 0 }
    }

    /// Whether `add` may be called with the bundle: its gas and value totals
    /// fit in a `u64`, and the count of received bundles can grow.
    pub fn can_add(&self, bundle: &Bundle) -> (b: bool)
        ensures
            b == (bundle.sums_fit() && self.spec_received() < u64::MAX),
    {
        bundle.totals_fit() && self.total_received < u64::MAX
    }

    /// Add a bundle. A bundle whose id is held replaces the held one. When the
    /// pool is full, the bundle evicts the first one of lowest value density if
    /// its own density is higher; otherwise it is refused and `false` returned.
    pub fn add(&mut self, bundle: Bundle) -> (accepted: bool)
        requires
            old(self).wf(),
            bundle.sums_fit(),
            old(self).spec_received() < u64::MAX,
        ensures
            final(self).wf(),
            final(self).spec_max_size() == old(self).spec_max_size(),
            0 < old(self).spec_max_size() && old(self).spec_bundles().len() <= old(self).spec_max_size()
                ==> final(self).spec_bundles().len() <= final(self).spec_max_size(),
            final(self).spec_received() == old(self).spec_received() + 1,
            final(self).spec_included() == old(self).spec_included(),
            final(self).spec_expired() == old(self).spec_expired(),
            accepted ==> has_bundle(final(self).spec_bundles(), bundle.id)
                && final(self).spec_bundles()[bundle_index(final(self).spec_bundles(), bundle.id)] == bundle,
            ({
                let s = old(self).spec_bundles();
                if has_bundle(s, bundle.id) {
                    accepted && final(self).spec_bundles() == s.update(bundle_index(s, bundle.id), bundle)
                } else if s.len() >= old(self).spec_max_size() && s.len() > 0 {
                    exists|k: int| is_first_min_density(s, k) && if ratio_gt(bundle.density(), s[k].density()) {
                        accepted && final(self).spec_bundles() == s.remove(k).push(bundle)
                    } else {
                        !accepted && final(self).spec_bundles() == s
                    }
                } else {
                    accepted && final(self).spec_bundles() == s.push(bundle)
                }
            }),
    {
        let ghost s = self.bundles@;
        self.total_received = self.total_received + 1;
        match find_bundle(&self.bundles, bundle.id) {
            Some(k) => {
                proof {
                    lemma_bundle_index(s, k as int);
                }
                self.bundles.set(k, bundle);
                proof {
                    assert(self.bundles@ == s.update(k as int, bundle));
                    assert forall|i: int, j: int| 0 <= i < j < self.bundles@.len()
                        implies #[trigger] self.bundles@[i].id != #[trigger] self.bundles@[j].id by {
                        assert(self.bundles@[i].id == s[i].id && self.bundles@[j].id == s[j].id);
                    }
                    lemma_bundle_index(self.bundles@, k as int);
                }
                return true;
            },
            None => {},
        }
        if self.bundles.len() >= self.max_size {
            match first_min_density(&self.bundles) {
                Some(w) => {
                    let wd = self.bundles[w].density_ratio();
                    let bd = bundle.density_ratio();
                    if ratio_above(bd, wd) {
                        self.bundles.remove(w);
                        proof {
                            lemma_distinct_remove(s, w as int);
                        }
                    } else {
                        return false;
                    }
                },
                None => {},
            }
        }
        let ghost mid = self.bundles@;
        self.bundles.push(bundle);
        proof {
            assert forall|i: int, j: int| 0 <= i < j < self.bundles@.len()
                implies #[trigger] self.bundles@[i].id != #[trigger] self.bundles@[j].id by {
                if j == mid.len() {
                    assert(self.bundles@[i] == mid[i]);
                    if self.bundles@[i].id == bundle.id {
                        assert(has_bundle(mid, bundle.id));
                    }
                } else {
                    assert(self.bundles@[i] == mid[i] && self.bundles@[j] == mid[j]);
                }
            }
            lemma_bundle_index(self.bundles@, self.bundles@.len() - 1);
        }
        true
    }

    /// Remove a bundle by id.
    pub fn remove(&mut self, id: BundleId) -> (r: Option<Bundle>)
        requires
            old(self).wf(),
        ensures
            final(self).wf(),
            final(self).spec_max_size() == old(self).spec_max_size(),
            final(self).spec_received() == old(self).spec_received(),
            final(self).spec_included() == old(self).spec_included(),
            final(self).spec_expired() == old(self).spec_expired(),
            r is None <==> !has_bundle(old(self).spec_bundles(), id),
            !has_bundle(final(self).spec_bundles(), id),
            r is None ==> final(self).spec_bundles() == old(self).spec_bundles(),
            r matches Some(b) ==> {
                let k = bundle_index(old(self).spec_bundles(), id);
                &&& b == old(self).spec_bundles()[k]
                &&& final(self).spec_bundles() == old(self).spec_bundles().remove(k)
            },
    {
        let ghost s = self.bundles@;
        match find_bundle(&self.bundles, id) {
            Some(k) => {
                proof {
                    lemma_bundle_index(s, k as int);
                    lemma_distinct_remove(s, k as int);
                }
                let b = self.bundles.remove(k);
                proof {
                    assert(!has_bundle(self.bundles@, id)) by {
                        if has_bundle(self.bundles@, id) {
                            let j = choose|j: int| 0 <= j < self.bundles@.len() && #[trigger] self.bundles@[j].id == id;
                            let j2 = if j < k { j } else { j + 1 };
                            assert(self.bundles@[j] == s[j2]);
                            if j2 < k { assert(s[j2].id != s[k as int].id); } else { assert(s[k as int].id != s[j2].id); }
                        }
                    }
                }
                Some(b)
            },
            None => None,
        }
    }

    /// The bundle with an id.
    pub fn get(&self, id: BundleId) -> (r: Option<&Bundle>)
        requires
            self.wf(),
        ensures
            r is None <==> !has_bundle(self.spec_bundles(), id),
            r matches Some(b) ==> *b == self.spec_bundles()[bundle_index(self.spec_bundles(), id)]
                && b.id == id,
    {
        match find_bundle(&self.bundles, id) {
            Some(k) => {
                proof {
                    lemma_bundle_index(self.bundles@, k as int);
                }
                Some(&self.bundles[k])
            },
            None => None,
        }
    }

    /// The bundles valid for a block number, in arrival order.
    pub fn get_for_block(&self, block_number: u64) -> (r: Vec<&Bundle>)
        ensures
            r@.len() == self.spec_bundles().filter(valid_at(block_number)).len(),
            forall|a: int| 0 <= a < r@.len() ==>
                #[trigger] r@[a] == self.spec_bundles().filter(valid_at(block_number))[a],
    {
        let ghost s = self.bundles@;
        let ghost pred = valid_at(block_number);
        let n = self.bundles.len();
        let mut r: Vec<&Bundle> = Vec::new();
        let mut i: usize = 0;
        proof {
            reveal(Seq::filter);
            assert(s.take(0) =~= Seq::<Bundle>::empty());
        }
        while i < n
            invariant
                n == s.len(),
                s == self.bundles@,
                i <= n,
                pred == valid_at(block_number),
                r@.len() == s.take(i as int).filter(pred).len(),
                forall|a: int| 0 <= a < r@.len() ==> #[trigger] r@[a] == s.take(i as int).filter(pred)[a],
            decreases n - i,
        {
            proof {
                assert(s.take(i as int + 1) =~= s.take(i as int).push(s[i as int]));
                s.take(i as int).lemma_filter_push(s[i as int], pred);
            }
            if self.bundles[i].is_valid_for_block(block_number) {
                r.push(&self.bundles[i]);
            }
            i = i + 1;
        }
        proof {
            assert(s.take(n as int) =~= s);
        }
        r
    }

    /// The value-per-gas ratios of the listed bundles.
    fn density_keys(v: &Vec<&Bundle>) -> (d: Vec<(u64, u64)>)
        requires
            forall|a: int| 0 <= a < v@.len() ==> #[trigger] v@[a].sums_fit(),
        ensures
            d@.len() == v@.len(),
            forall|a: int| 0 <= a < v@.len() ==> #[trigger] d@[a] == v@[a].density(),
    {
        let n = v.len();
        let mut d: Vec<(u64, u64)> = Vec::new();
        let mut i: usize = 0;
        while i < n
            invariant
                n == v@.len(),
                i <= n,
                forall|a: int| 0 <= a < v@.len() ==> #[trigger] v@[a].sums_fit(),
                d@.len() == i,
                forall|a: int| 0 <= a < i ==> #[trigger] d@[a] == v@[a].density(),
            decreases n - i,
        {
            d.push(v[i].density_ratio());
            i = i + 1;
        }
        d
    }

    /// The listed bundles in the stable order of decreasing value density.
    fn sort_refs_by_density<'a>(v: Vec<&'a Bundle>) -> (r: Vec<&'a Bundle>)
        requires
            forall|a: int| 0 <= a < v@.len() ==> #[trigger] v@[a].sums_fit(),
        ensures
            exists|p: Seq<usize>| #[trigger] is_ratio_desc_order(ref_densities(v@), p) && r@.len() == v@.len()
                && forall|a: int| 0 <= a < r@.len() ==> r@[a] == v@[#[trigger] p[a] as int],
    {
        let d = Self::density_keys(&v);
        let ghost keys = ref_densities(v@);
        assert(d@ =~= keys);
        let order = sort_ratio_desc(&d);
        let n = order.len();
        let mut r: Vec<&'a Bundle> = Vec::new();
        let mut a: usize = 0;
        while a < n
            invariant
                n == order@.len(),
                n == v@.len(),
                is_ratio_desc_order(keys, order@),
                a <= n,
                r@.len() == a,
                forall|b: int| 0 <= b < a ==> r@[b] == v@[#[trigger] order@[b] as int],
            decreases n - a,
        {
            r.push(v[order[a]]);
            a = a + 1;
        }
        r
    }

    /// References to all bundles, in arrival order.
    fn all_refs(&self) -> (r: Vec<&Bundle>)
        ensures
            r@.len() == self.spec_bundles().len(),
            forall|a: int| 0 <= a < r@.len() ==> #[trigger] r@[a] == self.spec_bundles()[a],
    {
        let n = self.bundles.len();
        let mut r: Vec<&Bundle> = Vec::new();
        let mut i: usize = 0;
        while i < n
            invariant
                n == self.bundles@.len(),
                i <= n,
                r@.len() == i,
                forall|a: int| 0 <= a < i ==> #[trigger] r@[a] == self.bundles@[a],
            decreases n - i,
        {
            r.push(&self.bundles[i]);
            i = i + 1;
        }
        r
    }

    /// All bundles, highest value density first (ties in arrival order).
    pub fn sorted_by_density(&self) -> (r: Vec<&Bundle>)
        requires
            self.wf(),
        ensures
            listed_by_density(self.spec_bundles(), r@),
    {
        let v = self.all_refs();
        let ghost vs = v@;
        let ghost s = self.bundles@;
        let r = Self::sort_refs_by_density(v);
        proof {
            assert(ref_densities(vs) =~= densities(s));
            let p = choose|p: Seq<usize>| #[trigger] is_ratio_desc_order(ref_densities(vs), p) && r@.len() == vs.len()
                && forall|a: int| 0 <= a < r@.len() ==> r@[a] == vs[#[trigger] p[a] as int];
            assert forall|a: int| 0 <= a < r@.len() implies r@[a] == s[#[trigger] p[a] as int] by {
                assert(r@[a] == vs[p[a] as int]);
            }
        }
        r
    }

    /// The bundles valid for a block number, highest value density first
    /// (ties in arrival order).
    pub fn get_for_block_sorted(&self, block_number: u64) -> (r: Vec<&Bundle>)
        requires
            self.wf(),
        ensures
            listed_by_density(self.spec_bundles().filter(valid_at(block_number)), r@),
    {
        let v = self.get_for_block(block_number);
        let ghost vs = v@;
        let ghost f = self.bundles@.filter(valid_at(block_number));
        proof {
            assert forall|a: int| 0 <= a < vs.len() implies #[trigger] vs[a].sums_fit() by {
                assert(vs[a] == f[a]);
                assert(f.contains(f[a]));
                self.bundles@.lemma_filter_contains_rev(valid_at(block_number), f[a]);
                let j = choose|j: int| 0 <= j < self.bundles@.len() && self.bundles@[j] == f[a];
                assert(self.bundles@[j].sums_fit());
            }
        }
        let r = Self::sort_refs_by_density(v);
        proof {
            assert(ref_densities(vs) =~= densities(f));
            let p = choose|p: Seq<usize>| #[trigger] is_ratio_desc_order(ref_densities(vs), p) && r@.len() == vs.len()
                && forall|a: int| 0 <= a < r@.len() ==> r@[a] == vs[#[trigger] p[a] as int];
            assert forall|a: int| 0 <= a < r@.len() implies r@[a] == f[#[trigger] p[a] as int] by {
                assert(r@[a] == vs[p[a] as int]);
            }
        }
        r
    }

    /// Whether `mark_included` may be called: the included count can grow.
    pub fn can_mark_included(&self) -> (b: bool)
        ensures
            b == (self.spec_included() < u64::MAX),
    {
        self.total_included < u64::MAX
    }

    /// Mark a bundle as included: it leaves the pool and, if it was held, the
    /// included count goes up by one.
    pub fn mark_included(&mut self, id: BundleId)
        requires
            old(self).wf(),
            old(self).spec_included() < u64::MAX,
        ensures
            final(self).wf(),
            final(self).spec_max_size() == old(self).spec_max_size(),
            final(self).spec_received() == old(self).spec_received(),
            final(self).spec_expired() == old(self).spec_expired(),
            has_bundle(old(self).spec_bundles(), id) ==> {
                &&& final(self).spec_bundles() == old(self).spec_bundles().remove(bundle_index(old(self).spec_bundles(), id))
                &&& final(self).spec_included() == old(self).spec_included() + 1
            },
            !has_bundle(old(self).spec_bundles(), id) ==> {
                &&& final(self).spec_bundles() == old(self).spec_bundles()
                &&& final(self).spec_included() == old(self).spec_included()
            },
    {
        if self.remove(id).is_some() {
            self.total_included = self.total_included + 1;
        }
    }

    /// Drop the bundles whose target block lies before `current_block`;
    /// returns how many were dropped.
    pub fn remove_expired(&mut self, current_block: u64) -> (count: usize)
        requires
            old(self).wf(),
            old(self).spec_expired() + old(self).spec_bundles().len() <= u64::MAX,
        ensures
            final(self).wf(),
            final(self).spec_bundles() == old(self).spec_bundles().filter(live(false, current_block)),
            count == old(self).spec_bundles().len() - final(self).spec_bundles().len(),
            final(self).spec_expired() == old(self).spec_expired() + count,
            final(self).spec_max_size() == old(self).spec_max_size(),
            final(self).spec_received() == old(self).spec_received(),
            final(self).spec_included() == old(self).spec_included(),
    {
        self.drop_and_count(false, current_block)
    }

    /// Drop the bundles whose latest timestamp lies before `current_timestamp`;
    /// returns how many were dropped.
    pub fn remove_expired_by_timestamp(&mut self, current_timestamp: u64) -> (count: usize)
        requires
            old(self).wf(),
            old(self).spec_expired() + old(self).spec_bundles().len() <= u64::MAX,
        ensures
            final(self).wf(),
            final(self).spec_bundles() == old(self).spec_bundles().filter(live(true, current_timestamp)),
            count == old(self).spec_bundles().len() - final(self).spec_bundles().len(),
            final(self).spec_expired() == old(self).spec_expired() + count,
            final(self).spec_max_size() == old(self).spec_max_size(),
            final(self).spec_received() == old(self).spec_received(),
            final(self).spec_included() == old(self).spec_included(),
    {
        self.drop_and_count(true, current_timestamp)
    }

    fn drop_and_count(&mut self, by_timestamp: bool, now: u64) -> (count: usize)
        requires
            old(self).wf(),
            old(self).spec_expired() + old(self).spec_bundles().len() <= u64::MAX,
        ensures
            final(self).wf(),
            final(self).spec_bundles() == old(self).spec_bundles().filter(live(by_timestamp, now)),
            count == old(self).spec_bundles().len() - final(self).spec_bundles().len(),
            final(self).spec_expired() == old(self).spec_expired() + count,
            final(self).spec_max_size() == old(self).spec_max_size(),
            final(self).spec_received() == old(self).spec_received(),
            final(self).spec_included() == old(self).spec_included(),
    {
        let ghost s = self.bundles@;
        let count = drop_expired(&mut self.bundles, by_timestamp, now);
        proof {
            lemma_filter_keeps(s, live(by_timestamp, now));
        }
        self.total_expired = self.total_expired + count as u64;
        count
    }

    /// Number of bundles in the pool.
    pub fn len(&self) -> (n: usize)
        ensures
            n == self.spec_bundles().len(),
    {
        self.bundles.len()
    }

    /// Whether the pool is empty.
    pub fn is_empty(&self) -> (b: bool)
        ensures
            b == (self.spec_bundles().len() == 0),
    {
        self.bundles.len() == 0
    }

    /// Remove all bundles; the counters are kept.
    pub fn clear(&mut self)
        ensures
            final(self).wf(),
            final(self).spec_bundles() == Seq::<Bundle>::empty(),
            final(self).spec_max_size() == old(self).spec_max_size(),
            final(self).spec_received() == old(self).spec_received(),
            final(self).spec_included() == old(self).spec_included(),
            final(self).spec_expired() == old(self).spec_expired(),
    {
        self.bundles = Vec::new();
    }

    /// Pool statistics.
    pub fn stats(&self) -> (st: BundlePoolStats)
        ensures
            st.count == self.spec_bundles().len(),
            st.total_received == self.spec_received(),
            st.total_included == self.spec_included(),
            st.total_expired == self.spec_expired(),
    {
        BundlePoolStats {
            count: self.bundles.len(),
            total_received: self.total_received,
            total_included: self.total_included,
            total_expired: self.total_expired,
        }
    }
}

/// Filtering keeps distinct ids and fitting totals.
proof fn lemma_filter_keeps(s: Seq<Bundle>, pred: spec_fn(Bundle) -> bool)
    requires
        bundle_ids_distinct(s),
        all_fit(s),
    ensures
        bundle_ids_distinct(s.filter(pred)),
        all_fit(s.filter(pred)),
    decreases s.len(),
{
    reveal(Seq::filter);
    if s.len() > 0 {
        let t = s.drop_last();
        assert forall|i: int, j: int| 0 <= i < j < t.len() implies #[trigger] t[i].id != #[trigger] t[j].id by {
            assert(t[i] == s[i] && t[j] == s[j]);
        }
        assert forall|i: int| 0 <= i < t.len() implies #[trigger] t[i].sums_fit() by {
            assert(t[i] == s[i]);
        }
        lemma_filter_keeps(t, pred);
        let f = t.filter(pred);
        if pred(s.last()) {
            let g = f.push(s.last());
            assert(s.filter(pred) == g);
            assert forall|i: int, j: int| 0 <= i < j < g.len() implies #[trigger] g[i].id != #[trigger] g[j].id by {
                if j == f.len() {
                    assert(g[i] == f[i]);
                    assert(f.contains(f[i]));
                    t.lemma_filter_contains_rev(pred, f[i]);
                    let k = choose|k: int| 0 <= k < t.len() && t[k] == f[i];
                    assert(s[k] == t[k]);
                    assert(s[k].id != s[s.len() - 1].id);
                } else {
                    assert(g[i] == f[i] && g[j] == f[j]);
                }
            }
            assert forall|i: int| 0 <= i < g.len() implies #[trigger] g[i].sums_fit() by {
                if i < f.len() {
                    assert(g[i] == f[i]);
                }
            }
        }
    }
}

} // verus!
