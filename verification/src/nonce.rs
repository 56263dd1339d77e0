use vstd::prelude::*;
use std::collections::HashMap;
use crate::tx::{Tx, Address};
use crate::pool::{listed_in_order, descending_density_keys};
use crate::order::{sort_desc, is_desc_order};

verus! {

broadcast use vstd::std_specs::hash::group_hash_axioms;

/// Errors related to nonce handling.
#[derive(Debug, Clone, Copy, PartialEq, Eq, Structural)]
pub enum NonceError {
    /// Transaction nonce is below the confirmed nonce
    NonceTooLow { got: u64, expected: u64 },
    /// Replacement transaction has insufficient fee
    ReplacementUnderpriced { existing_fee: u64, new_fee: u64 },
}

/// Nonces strictly increase along the sequence.
pub open spec fn nonce_sorted(s: Seq<Tx>) -> bool {
    forall|i: int, j: int| 0 <= i < j < s.len() ==> #[trigger] s[i].nonce < #[trigger] s[j].nonce
}

/// Some transaction of the sequence has the nonce.
pub open spec fn has_nonce(s: Seq<Tx>, n: u64) -> bool {
    exists|i: int| 0 <= i < s.len() && #[trigger] s[i].nonce == n
}

/// How many transactions at the front of `s` carry the nonces `start`, `start + 1`, ...
/// without a gap.
pub open spec fn gapless_len(s: Seq<Tx>, start: int) -> int
    decreases s.len(),
{
    if s.len() > 0 && s[0].nonce == start {
        1 + gapless_len(s.drop_first(), start + 1)
    } else {
        0
    }
}

/// The queue `s` after adding `tx`: it holds `tx`, and every other transaction of
/// `s` whose nonce differs, in nonce order.
pub open spec fn queue_with(s: Seq<Tx>, tx: Tx, r: Seq<Tx>) -> bool {
    &&& nonce_sorted(r)
    &&& forall|t: Tx| #[trigger] r.contains(t) <==> (t == tx || (s.contains(t) && t.nonce != tx.nonce))
}

/// The transaction of a queue with a nonce (meaningful when there is one).
pub open spec fn at_nonce(s: Seq<Tx>, n: u64) -> Tx {
    s[choose|i: int| 0 <= i < s.len() && #[trigger] s[i].nonce == n]
}

/// Queues of two entry lists agree on every address but `a`.
pub open spec fn same_elsewhere(e1: Seq<(Address, Seq<Tx>)>, e2: Seq<(Address, Seq<Tx>)>, a: Address) -> bool {
    &&& forall|b: Address| b != a ==> (#[trigger] in_entries(e1, b) <==> in_entries(e2, b))
    &&& forall|i: int, j: int| 0 <= i < e1.len() && 0 <= j < e2.len() && #[trigger] e1[i].0 != a && e1[i].0 == #[trigger] e2[j].0
        ==> e1[i].1 == e2[j].1
}

/// Some entry is for the address.
pub open spec fn in_entries(e: Seq<(Address, Seq<Tx>)>, b: Address) -> bool {
    exists|i: int| 0 <= i < e.len() && #[trigger] e[i].0 == b
}

/// The references list exactly the transactions of `s`.
pub open spec fn refs_of<'a>(r: Seq<&'a Tx>, s: Seq<Tx>) -> bool {
    r.len() == s.len() && forall|i: int| 0 <= i < r.len() ==> #[trigger] r[i] == s[i]
}

/// The executable transactions of a queue: its gapless front from `start`.
pub open spec fn executable_of(s: Seq<Tx>, start: u64) -> Seq<Tx> {
    s.take(gapless_len(s, start as int))
}

/// Confirmed nonce of an address under a map; zero when unknown.
pub open spec fn conf_in(m: Map<Address, u64>, a: Address) -> u64 {
    if m.contains_key(a) { m[a] } else { 0 }
}

/// The executable transactions of every entry, entry after entry.
pub open spec fn all_executable(e: Seq<(Address, Seq<Tx>)>, m: Map<Address, u64>) -> Seq<Tx>
    decreases e.len(),
{
    if e.len() == 0 {
        Seq::empty()
    } else {
        all_executable(e.drop_last(), m) + executable_of(e.last().1, conf_in(m, e.last().0))
    }
}

/// Number of pending transactions over all entries.
pub open spec fn total_len(e: Seq<(Address, Seq<Tx>)>) -> int
    decreases e.len(),
{
    if e.len() == 0 { 0 } else { total_len(e.drop_last()) + e.last().1.len() }
}

proof fn lemma_gapless_step(s: Seq<Tx>, start: int, i: int)
    requires
        0 <= i < s.len(),
        gapless_len(s, start) >= i,
        gapless_len(s, start) == i + gapless_len(s.skip(i), start + i),
    ensures
        s[i].nonce == start + i ==> gapless_len(s, start) == (i + 1) + gapless_len(s.skip(i + 1), start + i + 1),
        s[i].nonce != start + i ==> gapless_len(s, start) == i,
{
    assert(s.skip(i).drop_first() =~= s.skip(i + 1));
    assert(s.skip(i)[0] == s[i]);
}

proof fn lemma_gapless_bound(s: Seq<Tx>, start: int)
    ensures
        0 <= gapless_len(s, start) <= s.len(),
    decreases s.len(),
{
    if s.len() > 0 {
        lemma_gapless_bound(s.drop_first(), start + 1);
    }
}

proof fn lemma_total_len_prefix(e: Seq<(Address, Seq<Tx>)>, i: int)
    requires
        0 <= i <= e.len(),
    ensures
        0 <= total_len(e.take(i)) <= total_len(e),
        i > 0 ==> total_len(e.take(i)) == total_len(e.take(i - 1)) + e[i - 1].1.len(),
    decreases e.len() - i,
{
    if i > 0 {
        assert(e.take(i).drop_last() =~= e.take(i - 1));
    }
    if i < e.len() {
        lemma_total_len_prefix(e, i + 1);
        assert(e.take(i + 1).drop_last() =~= e.take(i));
    } else {
        assert(e.take(i) =~= e);
    }
    lemma_total_len_nonneg(e.take(i));
}

proof fn lemma_total_len_nonneg(e: Seq<(Address, Seq<Tx>)>)
    ensures
        total_len(e) >= 0,
    decreases e.len(),
{
    if e.len() > 0 {
        lemma_total_len_nonneg(e.drop_last());
    }
}

/// Tracks nonces for accounts and manages transaction dependencies.
#[derive(Debug)]
pub struct NonceTracker {
    /// Current confirmed nonce for each address (from chain state)
    confirmed_nonces: HashMap<Address, u64>,
    /// Pending transactions per address, in nonce order
    pending: Vec<(Address, Vec<Tx>)>,
}

impl NonceTracker {
    /// Confirmed nonces by address.
    pub closed spec fn spec_confirmed(&self) -> Map<Address, u64> {
        self.confirmed_nonces@
    }

    /// The addresses with a pending queue, and their queues, in order of first use.
    pub closed spec fn spec_entries(&self) -> Seq<(Address, Seq<Tx>)> {
        self.pending@.map_values(|e: (Address, Vec<Tx>)| (e.0, e.1@))
    }

    /// Confirmed nonce of an address; zero when unknown.
    pub open spec fn conf(&self, a: Address) -> u64 {
        if self.spec_confirmed().contains_key(a) { self.spec_confirmed()[a] } else { 0 }
    }

    /// Whether the address has a pending queue.
    pub open spec fn has_queue(&self, a: Address) -> bool {
        exists|i: int| 0 <= i < self.spec_entries().len() && #[trigger] self.spec_entries()[i].0 == a
    }

    /// The pending queue of an address; empty when it has none.
    pub open spec fn queue(&self, a: Address) -> Seq<Tx> {
        if self.has_queue(a) {
            self.spec_entries()[choose|i: int| 0 <= i < self.spec_entries().len() && #[trigger] self.spec_entries()[i].0 == a].1
        } else {
            Seq::empty()
        }
    }

    /// Addresses are distinct and every queue is in strictly increasing nonce order,
    /// holds transactions of its own sender, and holds no nonce below the sender's
    /// confirmed nonce.
    pub open spec fn wf(&self) -> bool {
        &&& self.shape_ok()
        &&& self.nonces_confirmed_except(None)
    }

    /// Addresses are distinct and every queue is in strictly increasing nonce order
    /// and holds transactions of its own sender.
    pub open spec fn shape_ok(&self) -> bool {
        let e = self.spec_entries();
        &&& forall|i: int, j: int| 0 <= i < e.len() && 0 <= j < e.len() && i != j ==> #[trigger] e[i].0 != #[trigger] e[j].0
        &&& forall|i: int| 0 <= i < e.len() ==> nonce_sorted(#[trigger] e[i].1)
        &&& forall|i: int, k: int| 0 <= i < e.len() && 0 <= k < e[i].1.len() ==> (#[trigger] e[i].1[k]).sender == e[i].0
    }

    /// No queue, but possibly that of `skip`, holds a nonce below its sender's
    /// confirmed nonce.
    pub open spec fn nonces_confirmed_except(&self, skip: Option<Address>) -> bool {
        let e = self.spec_entries();
        forall|i: int, k: int| 0 <= i < e.len() && 0 <= k < e[i].1.len() && skip != Some(e[i].0)
            ==> (#[trigger] e[i].1[k]).nonce >= self.conf(e[i].0)
    }

    proof fn lemma_queue_at(&self, i: int)
        requires
            self.shape_ok(),
            0 <= i < self.spec_entries().len(),
        ensures
            self.has_queue(self.spec_entries()[i].0),
            self.queue(self.spec_entries()[i].0) == self.spec_entries()[i].1,
    {
        let a = self.spec_entries()[i].0;
        assert(self.spec_entries()[i].0 == a);
        let j = choose|j: int| 0 <= j < self.spec_entries().len() && #[trigger] self.spec_entries()[j].0 == a;
        assert(i == j);
    }

    /// The transaction could run next: its nonce is its sender's confirmed nonce,
    /// or every nonce from the confirmed one up to its own is pending.
    pub open spec fn executable_tx(&self, tx: Tx) -> bool {
        tx.nonce == self.conf(tx.sender) || (tx.nonce > self.conf(tx.sender)
            && self.has_queue(tx.sender)
            && forall|n: u64| self.conf(tx.sender) <= n < tx.nonce ==> #[trigger] has_nonce(self.queue(tx.sender), n))
    }

    /// Create an empty tracker.
    pub fn new() -> (t: Self)
        ensures
            t.wf(),
            t.spec_confirmed() == Map::<Address, u64>::empty(),
            t.spec_entries() == Seq::<(Address, Seq<Tx>)>::empty(),
    {
        let t = NonceTracker { confirmed_nonces: HashMap::new(), pending: Vec::new() };
        assert(t.spec_entries() =~= Seq::<(Address, Seq<Tx>)>::empty());
        t
    }

    /// Position of an address's queue.
    fn find_entry(&self, a: Address) -> (r: Option<usize>)
        requires
            self.shape_ok(),
        ensures
            r is None <==> !self.has_queue(a),
            r matches Some(i) ==> i < self.spec_entries().len() && self.spec_entries()[i as int].0 == a
                && self.queue(a) == self.spec_entries()[i as int].1,
    {
        let n = self.pending.len();
        let mut i: usize = 0;
        while i < n
            invariant
                n == self.pending@.len(),
                i <= n,
                self.shape_ok(),
                forall|j: int| 0 <= j < i ==> #[trigger] self.spec_entries()[j].0 != a,
            decreases n - i,
        {
            if self.pending[i].0 == a {
                proof {
                    self.lemma_queue_at(i as int);
                }
                return Some(i);
            }
            i = i + 1;
        }
        proof {
            if self.has_queue(a) {
                let j = choose|j: int| 0 <= j < self.spec_entries().len() && #[trigger] self.spec_entries()[j].0 == a;
                assert(self.spec_entries()[j].0 != a);
            }
        }
        None
    }

    proof fn lemma_same_elsewhere(&self, other: &Self, a: Address)
        requires
            self.shape_ok(),
            other.shape_ok(),
            same_elsewhere(self.spec_entries(), other.spec_entries(), a),
        ensures
            forall|b: Address| b != a ==> self.has_queue(b) == other.has_queue(b)
                && self.queue(b) == other.queue(b),
    {
        assert forall|b: Address| b != a implies self.has_queue(b) == other.has_queue(b)
            && self.queue(b) == other.queue(b) by {
            assert(in_entries(self.spec_entries(), b) == self.has_queue(b));
            assert(in_entries(other.spec_entries(), b) == other.has_queue(b));
            if self.has_queue(b) {
                let i = choose|i: int| 0 <= i < self.spec_entries().len() && #[trigger] self.spec_entries()[i].0 == b;
                let j = choose|j: int| 0 <= j < other.spec_entries().len() && #[trigger] other.spec_entries()[j].0 == b;
                self.lemma_queue_at(i);
                other.lemma_queue_at(j);
                assert(self.spec_entries()[i].0 != a);
            }
        }
    }

    /// Replace the queue at position `i` (of address `a`).
    fn set_queue(&mut self, i: usize, a: Address, q: Vec<Tx>)
        requires
            old(self).shape_ok(),
            old(self).nonces_confirmed_except(Some(a)),
            i < old(self).spec_entries().len(),
            old(self).spec_entries()[i as int].0 == a,
            nonce_sorted(q@),
            forall|k: int| 0 <= k < q@.len() ==> (#[trigger] q@[k]).sender == a,
            forall|k: int| 0 <= k < q@.len() ==> (#[trigger] q@[k]).nonce >= old(self).conf(a),
        ensures
            final(self).wf(),
            final(self).spec_confirmed() == old(self).spec_confirmed(),
            final(self).spec_entries() == old(self).spec_entries().update(i as int, (a, q@)),
            final(self).has_queue(a),
            final(self).queue(a) == q@,
            forall|b: Address| b != a ==> final(self).has_queue(b) == old(self).has_queue(b)
                && final(self).queue(b) == old(self).queue(b),
            forall|b: Address| #[trigger] final(self).has_queue(b) == old(self).has_queue(b),
    {
        self.pending.set(i, (a, q));
        proof {
            let e1 = old(self).spec_entries();
            let e2 = self.spec_entries();
            assert(e2 =~= e1.update(i as int, (a, q@)));
            assert forall|x: int, y: int| 0 <= x < e2.len() && 0 <= y < e2.len() && x != y implies #[trigger] e2[x].0 != #[trigger] e2[y].0 by {
                assert(e1[x].0 != e1[y].0);
            }
            assert forall|x: int| 0 <= x < e2.len() implies nonce_sorted(#[trigger] e2[x].1) by {
                if x != i { assert(e2[x] == e1[x]); }
            }
            assert forall|x: int, k: int| 0 <= x < e2.len() && 0 <= k < e2[x].1.len() implies (#[trigger] e2[x].1[k]).sender == e2[x].0 by {
                if x != i { assert(e2[x] == e1[x]); }
            }
            assert forall|x: int, k: int| 0 <= x < e2.len() && 0 <= k < e2[x].1.len() implies
                (#[trigger] e2[x].1[k]).nonce >= self.conf(e2[x].0) by {
                if x != i {
                    assert(e2[x] == e1[x]);
                    assert(e1[x].0 != e1[i as int].0);
                }
            }
            assert(same_elsewhere(e1, e2, a)) by {
                assert forall|b: Address| b != a implies (#[trigger] in_entries(e1, b) <==> in_entries(e2, b)) by {
                    if exists|x: int| 0 <= x < e1.len() && #[trigger] e1[x].0 == b {
                        let x = choose|x: int| 0 <= x < e1.len() && #[trigger] e1[x].0 == b;
                        assert(e2[x].0 == b);
                    }
                    if exists|x: int| 0 <= x < e2.len() && #[trigger] e2[x].0 == b {
                        let x = choose|x: int| 0 <= x < e2.len() && #[trigger] e2[x].0 == b;
                        assert(e1[x].0 == b);
                    }
                }
                assert forall|x: int, y: int| 0 <= x < e1.len() && 0 <= y < e2.len() && #[trigger] e1[x].0 != a && e1[x].0 == #[trigger] e2[y].0 implies e1[x].1 == e2[y].1 by {
                    assert(y != i);
                    assert(e1[y].0 == e2[y].0);
                }
            }
            old(self).lemma_same_elsewhere(self, a);
            self.lemma_queue_at(i as int);
            assert forall|b: Address| #[trigger] self.has_queue(b) == old(self).has_queue(b) by {
                if b == a {
                    old(self).lemma_queue_at(i as int);
                }
            }
        }
    }

    /// Set the confirmed nonce of an address and drop its pending transactions
    /// with lower nonces.
    pub fn set_confirmed_nonce(&mut self, address: Address, nonce: u64)
        requires
            old(self).wf(),
        ensures
            final(self).wf(),
            final(self).spec_confirmed() == old(self).spec_confirmed().insert(address, nonce),
            final(self).queue(address) == old(self).queue(address).filter(|t: Tx| t.nonce >= nonce),
            forall|b: Address| #[trigger] final(self).has_queue(b) == old(self).has_queue(b),
            forall|b: Address| b != address ==> #[trigger] final(self).queue(b) == old(self).queue(b),
    {
        self.confirmed_nonces.insert(address, nonce);
        let ghost mid = *self;
        proof {
            assert(mid.spec_entries() == old(self).spec_entries());
        }
        match self.find_entry(address) {
            None => {
                proof {
                    assert(old(self).queue(address) =~= Seq::<Tx>::empty());
                    assert(Seq::<Tx>::empty().filter(|t: Tx| t.nonce >= nonce) =~= Seq::<Tx>::empty()) by {
                        reveal(Seq::filter);
                    }
                }
            },
            Some(i) => {
                let q = &self.pending[i].1;
                let ghost qs = q@;
                let ghost pred = |t: Tx| t.nonce >= nonce;
                let n = q.len();
                let mut kept: Vec<Tx> = Vec::new();
                let mut k: usize = 0;
                proof {
                    assert(qs.take(0).filter(pred) =~= Seq::<Tx>::empty()) by {
                        reveal(Seq::filter);
                    }
                    assert(qs == self.spec_entries()[i as int].1);
                }
                while k < n
                    invariant
                        n == qs.len(),
                        q@ == qs,
                        k <= n,
                        nonce_sorted(qs),
                        forall|x: int| 0 <= x < qs.len() ==> (#[trigger] qs[x]).sender == address,
                        kept@ == qs.take(k as int).filter(pred),
                        nonce_sorted(kept@),
                        forall|x: int| 0 <= x < kept@.len() ==> (#[trigger] kept@[x]).sender == address,
                        forall|x: int| 0 <= x < kept@.len() ==> exists|y: int| 0 <= y < k && #[trigger] kept@[x] == qs[y],
                        pred == (|t: Tx| t.nonce >= nonce),
                    decreases n - k,
                {
                    let t = q[k];
                    proof {
                        assert(qs.take(k as int + 1) =~= qs.take(k as int).push(t));
                        qs.take(k as int).lemma_filter_push(t, pred);
                    }
                    if t.nonce >= nonce {
                        let ghost before = kept@;
                        kept.push(t);
                        proof {
                            assert forall|x: int, y: int| 0 <= x < y < kept@.len() implies #[trigger] kept@[x].nonce < #[trigger] kept@[y].nonce by {
                                if y == before.len() {
                                    let z = choose|z: int| 0 <= z < k && #[trigger] before[x] == qs[z];
                                    assert(kept@[x] == before[x]);
                                } else {
                                    assert(kept@[x] == before[x] && kept@[y] == before[y]);
                                }
                            }
                            assert forall|x: int| 0 <= x < kept@.len() implies exists|y: int| 0 <= y < k + 1 && #[trigger] kept@[x] == qs[y] by {
                                if x == before.len() {
                                    assert(kept@[x] == qs[k as int]);
                                } else {
                                    assert(kept@[x] == before[x]);
                                    let z = choose|z: int| 0 <= z < k && #[trigger] before[x] == qs[z];
                                    assert(kept@[x] == qs[z]);
                                }
                            }
                        }
                    }
                    k = k + 1;
                }
                proof {
                    assert(qs.take(n as int) =~= qs);
                }
                self.set_queue(i, address, kept);
            },
        }
    }

    /// Add a transaction to the pending queue of its sender. Refused when its nonce
    /// is below the confirmed nonce, or when it would replace a transaction of the
    /// same nonce without a higher priority fee.
    pub fn add_tx(&mut self, tx: Tx) -> (r: Result<(), NonceError>)
        requires
            old(self).wf(),
        ensures
            final(self).wf(),
            final(self).spec_confirmed() == old(self).spec_confirmed(),
            tx.nonce < old(self).conf(tx.sender) ==> r == Err::<(), NonceError>(NonceError::NonceTooLow {
                got: tx.nonce,
                expected: old(self).conf(tx.sender),
            }) && *final(self) == *old(self),
            tx.nonce >= old(self).conf(tx.sender) && has_nonce(old(self).queue(tx.sender), tx.nonce)
                && tx.priority_fee_gwei <= at_nonce(old(self).queue(tx.sender), tx.nonce).priority_fee_gwei ==>
                r == Err::<(), NonceError>(NonceError::ReplacementUnderpriced {
                    existing_fee: at_nonce(old(self).queue(tx.sender), tx.nonce).priority_fee_gwei,
                    new_fee: tx.priority_fee_gwei,
                }) && *final(self) == *old(self),
            tx.nonce >= old(self).conf(tx.sender) && !(has_nonce(old(self).queue(tx.sender), tx.nonce)
                && tx.priority_fee_gwei <= at_nonce(old(self).queue(tx.sender), tx.nonce).priority_fee_gwei) ==> {
                &&& r is Ok
                &&& final(self).has_queue(tx.sender)
                &&& queue_with(old(self).queue(tx.sender), tx, final(self).queue(tx.sender))
                &&& final(self).queue(tx.sender).len() == old(self).queue(tx.sender).len()
                    + (if has_nonce(old(self).queue(tx.sender), tx.nonce) { 0int } else { 1 })
                &&& forall|b: Address| b != tx.sender ==> #[trigger] final(self).has_queue(b) == old(self).has_queue(b)
                    && final(self).queue(b) == old(self).queue(b)
            },
    {
        let confirmed = self.confirmed_nonce(tx.sender);
        if tx.nonce < confirmed {
            return Err(NonceError::NonceTooLow { got: tx.nonce, expected: confirmed });
        }
        match self.find_entry(tx.sender) {
            None => {
                let ghost e1 = self.spec_entries();
                let mut q: Vec<Tx> = Vec::new();
                q.push(tx);
                self.pending.push((tx.sender, q));
                proof {
                    let e2 = self.spec_entries();
                    assert(e2 =~= e1.push((tx.sender, seq![tx])));
                    assert(!has_nonce(old(self).queue(tx.sender), tx.nonce)) by {
                        assert(old(self).queue(tx.sender) =~= Seq::<Tx>::empty());
                    }
                    assert forall|x: int, y: int| 0 <= x < e2.len() && 0 <= y < e2.len() && x != y implies #[trigger] e2[x].0 != #[trigger] e2[y].0 by {
                        if x < e1.len() && y < e1.len() {
                            assert(e1[x].0 != e1[y].0);
                        } else if x < e1.len() {
                            assert(e1[x].0 != tx.sender);
                        } else {
                            assert(e1[y].0 != tx.sender);
                        }
                    }
                    assert forall|x: int| 0 <= x < e2.len() implies nonce_sorted(#[trigger] e2[x].1) by {
                        if x < e1.len() { assert(e2[x] == e1[x]); }
                    }
                    assert forall|x: int, k: int| 0 <= x < e2.len() && 0 <= k < e2[x].1.len() implies (#[trigger] e2[x].1[k]).sender == e2[x].0 by {
                        if x < e1.len() { assert(e2[x] == e1[x]); }
                    }
                    assert(same_elsewhere(e1, e2, tx.sender)) by {
                        assert forall|b: Address| b != tx.sender implies (#[trigger] in_entries(e1, b) <==> in_entries(e2, b)) by {
                            if exists|x: int| 0 <= x < e1.len() && #[trigger] e1[x].0 == b {
                                let x = choose|x: int| 0 <= x < e1.len() && #[trigger] e1[x].0 == b;
                                assert(e2[x].0 == b);
                            }
                            if exists|x: int| 0 <= x < e2.len() && #[trigger] e2[x].0 == b {
                                let x = choose|x: int| 0 <= x < e2.len() && #[trigger] e2[x].0 == b;
                                assert(e1[x].0 == b);
                            }
                        }
                        assert forall|x: int, y: int| 0 <= x < e1.len() && 0 <= y < e2.len() && #[trigger] e1[x].0 != tx.sender && e1[x].0 == #[trigger] e2[y].0 implies e1[x].1 == e2[y].1 by {
                            assert(y < e1.len());
                            assert(e1[y].0 == e2[y].0);
                        }
                    }
                    old(self).lemma_same_elsewhere(self, tx.sender);
                    self.lemma_queue_at(e1.len() as int);
                    assert forall|t: Tx| #[trigger] seq![tx].contains(t) <==> (t == tx || (old(self).queue(tx.sender).contains(t) && t.nonce != tx.nonce)) by {
                        if seq![tx].contains(t) {
                            let z = choose|z: int| 0 <= z < 1 && seq![tx][z] == t;
                        }
                        assert(seq![tx][0] == tx);
                    }
                }
                Ok(())
            },
            Some(i) => {
                let q = &self.pending[i].1;
                proof {
                    assert(q@ == self.spec_entries()[i as int].1);
                }
                match Self::insert_into_queue(q, tx) {
                    Err(e) => Err(e),
                    Ok(nq) => {
                        proof {
                            let e = self.spec_entries();
                            assert forall|k: int| 0 <= k < nq@.len() implies (#[trigger] nq@[k]).nonce >= self.conf(tx.sender) by {
                                let t = nq@[k];
                                assert(nq@.contains(t));
                                if t != tx {
                                    assert(q@.contains(t));
                                    let z = choose|z: int| 0 <= z < q@.len() && q@[z] == t;
                                    assert(e[i as int].1[z] == t);
                                }
                            }
                        }
                        self.set_queue(i, tx.sender, nq);
                        Ok(())
                    },
                }
            },
        }
    }

    /// The queue `q` with `tx` put at its nonce, or the refusal of an underpriced
    /// replacement.
    fn insert_into_queue(q: &Vec<Tx>, tx: Tx) -> (r: Result<Vec<Tx>, NonceError>)
        requires
            nonce_sorted(q@),
            forall|x: int| 0 <= x < q@.len() ==> (#[trigger] q@[x]).sender == tx.sender,
        ensures
            has_nonce(q@, tx.nonce) && tx.priority_fee_gwei <= at_nonce(q@, tx.nonce).priority_fee_gwei ==>
                r == Err::<Vec<Tx>, NonceError>(NonceError::ReplacementUnderpriced {
                    existing_fee: at_nonce(q@, tx.nonce).priority_fee_gwei,
                    new_fee: tx.priority_fee_gwei,
                }),
            !(has_nonce(q@, tx.nonce) && tx.priority_fee_gwei <= at_nonce(q@, tx.nonce).priority_fee_gwei) ==>
                (r matches Ok(nq) && queue_with(q@, tx, nq@)
                && forall|x: int| 0 <= x < nq@.len() ==> (#[trigger] nq@[x]).sender == tx.sender),
            r matches Ok(nq) ==> nq@.len() == q@.len() + (if has_nonce(q@, tx.nonce) { 0int } else { 1 }),
    {
        let ghost qs = q@;
        let n = q.len();
        let mut pos: usize = 0;
        while pos < n && q[pos].nonce < tx.nonce
            invariant
                n == qs.len(),
                q@ == qs,
                pos <= n,
                forall|x: int| 0 <= x < pos ==> (#[trigger] qs[x]).nonce < tx.nonce,
            decreases n - pos,
        {
            pos = pos + 1;
        }
        let mut nq: Vec<Tx> = q.clone();
        if pos < n && q[pos].nonce == tx.nonce {
            proof {
                let z = choose|z: int| 0 <= z < qs.len() && #[trigger] qs[z].nonce == tx.nonce;
                assert(z == pos as int);
            }
            if tx.priority_fee_gwei <= q[pos].priority_fee_gwei {
                return Err(NonceError::ReplacementUnderpriced {
                    existing_fee: q[pos].priority_fee_gwei,
                    new_fee: tx.priority_fee_gwei,
                });
            }
            nq.set(pos, tx);
            proof {
                assert(nq@ == qs.update(pos as int, tx));
                assert forall|x: int, y: int| 0 <= x < y < nq@.len() implies #[trigger] nq@[x].nonce < #[trigger] nq@[y].nonce by {
                    assert(qs[x].nonce < qs[y].nonce);
                }
                assert forall|t: Tx| #[trigger] nq@.contains(t) <==> (t == tx || (qs.contains(t) && t.nonce != tx.nonce)) by {
                    if nq@.contains(t) {
                        let z = choose|z: int| 0 <= z < nq@.len() && nq@[z] == t;
                        if z != pos { assert(qs[z] == t); assert(qs[z].nonce != qs[pos as int].nonce); }
                    }
                    if t == tx { assert(nq@[pos as int] == t); }
                    if qs.contains(t) && t.nonce != tx.nonce {
                        let z = choose|z: int| 0 <= z < qs.len() && qs[z] == t;
                        assert(z != pos);
                        assert(nq@[z] == t);
                    }
                }
            }
        } else {
            proof {
                assert(!has_nonce(qs, tx.nonce)) by {
                    if has_nonce(qs, tx.nonce) {
                        let z = choose|z: int| 0 <= z < qs.len() && #[trigger] qs[z].nonce == tx.nonce;
                        if z < pos { } else { assert(qs[pos as int].nonce <= qs[z].nonce); }
                    }
                }
            }
            nq.insert(pos, tx);
            proof {
                assert(nq@ == qs.insert(pos as int, tx));
                assert forall|x: int, y: int| 0 <= x < y < nq@.len() implies #[trigger] nq@[x].nonce < #[trigger] nq@[y].nonce by {
                    if y < pos {
                        assert(qs[x].nonce < qs[y].nonce);
                    } else if y == pos {
                        assert(nq@[x] == qs[x]);
                    } else if x < pos {
                        assert(nq@[y] == qs[y - 1]);
                        assert(qs[x].nonce < tx.nonce);
                        assert(tx.nonce < qs[pos as int].nonce);
                        if y - 1 > pos { assert(qs[pos as int].nonce < qs[y - 1].nonce); }
                    } else if x == pos {
                        assert(nq@[y] == qs[y - 1]);
                        assert(tx.nonce < qs[pos as int].nonce);
                        if y - 1 > pos { assert(qs[pos as int].nonce < qs[y - 1].nonce); }
                    } else {
                        assert(nq@[x] == qs[x - 1] && nq@[y] == qs[y - 1]);
                    }
                }
                assert forall|t: Tx| #[trigger] nq@.contains(t) <==> (t == tx || (qs.contains(t) && t.nonce != tx.nonce)) by {
                    if nq@.contains(t) {
                        let z = choose|z: int| 0 <= z < nq@.len() && nq@[z] == t;
                        if z < pos { assert(qs[z] == t); } else if z > pos { assert(qs[z - 1] == t); }
                    }
                    if t == tx { assert(nq@[pos as int] == t); }
                    if qs.contains(t) && t.nonce != tx.nonce {
                        let z = choose|z: int| 0 <= z < qs.len() && qs[z] == t;
                        if z < pos { assert(nq@[z] == t); } else { assert(nq@[z + 1] == t); }
                    }
                }
            }
        }
        proof {
            assert forall|k: int| 0 <= k < nq@.len() implies (#[trigger] nq@[k]).sender == tx.sender by {
                assert(nq@.contains(nq@[k]));
                if nq@[k] != tx {
                    let z = choose|z: int| 0 <= z < qs.len() && qs[z] == nq@[k];
                }
            }
        }
        Ok(nq)
    }


    /// Remove the pending transaction of a sender with a nonce.
    pub fn remove_tx(&mut self, sender: Address, nonce: u64) -> (r: Option<Tx>)
        requires
            old(self).wf(),
        ensures
            final(self).wf(),
            final(self).spec_confirmed() == old(self).spec_confirmed(),
            r is None <==> !has_nonce(old(self).queue(sender), nonce),
            !has_nonce(final(self).queue(sender), nonce),
            r is None ==> *final(self) == *old(self),
            r matches Some(t) ==> exists|k: int| 0 <= k < old(self).queue(sender).len()
                && old(self).queue(sender)[k].nonce == nonce && t == old(self).queue(sender)[k]
                && final(self).queue(sender) == old(self).queue(sender).remove(k),
            forall|b: Address| #[trigger] final(self).has_queue(b) == old(self).has_queue(b),
            forall|b: Address| b != sender ==> #[trigger] final(self).queue(b) == old(self).queue(b),
    {
        match self.find_entry(sender) {
            None => {
                proof {
                    assert(old(self).queue(sender) =~= Seq::<Tx>::empty());
                }
                None
            },
            Some(i) => {
                let q = &self.pending[i].1;
                let ghost qs = q@;
                let n = q.len();
                let mut k: usize = 0;
                while k < n && q[k].nonce != nonce
                    invariant
                        n == qs.len(),
                        q@ == qs,
                        k <= n,
                        forall|x: int| 0 <= x < k ==> (#[trigger] qs[x]).nonce != nonce,
                    decreases n - k,
                {
                    k = k + 1;
                }
                proof {
                    assert(qs == self.spec_entries()[i as int].1);
                }
                if k == n {
                    proof {
                        if has_nonce(qs, nonce) {
                            let z = choose|z: int| 0 <= z < qs.len() && #[trigger] qs[z].nonce == nonce;
                        }
                    }
                    return None;
                }
                let mut nq: Vec<Tx> = q.clone();
                let t = nq.remove(k);
                proof {
                    assert(nq@ == qs.remove(k as int));
                    assert forall|x: int, y: int| 0 <= x < y < nq@.len() implies #[trigger] nq@[x].nonce < #[trigger] nq@[y].nonce by {
                        let x2 = if x < k { x } else { x + 1 };
                        let y2 = if y < k { y } else { y + 1 };
                        assert(nq@[x] == qs[x2] && nq@[y] == qs[y2]);
                    }
                    assert forall|x: int| 0 <= x < nq@.len() implies (#[trigger] nq@[x]).sender == sender by {
                        let x2 = if x < k { x } else { x + 1 };
                        assert(nq@[x] == qs[x2]);
                    }
                    assert(!has_nonce(nq@, nonce)) by {
                        if has_nonce(nq@, nonce) {
                            let x = choose|x: int| 0 <= x < nq@.len() && #[trigger] nq@[x].nonce == nonce;
                            let x2 = if x < k { x } else { x + 1 };
                            assert(nq@[x] == qs[x2]);
                            if x2 < k { assert(qs[x2].nonce < qs[k as int].nonce); } else { assert(qs[k as int].nonce < qs[x2].nonce); }
                        }
                    }
                }
                self.set_queue(i, sender, nq);
                Some(t)
            },
        }
    }

    /// Executable transactions of an address: those whose nonces follow the
    /// confirmed nonce without a gap, in nonce order.
    pub fn get_executable(&self, address: Address) -> (r: Vec<&Tx>)
        requires
            self.wf(),
        ensures
            refs_of(r@, executable_of(self.queue(address), self.conf(address))),
    {
        let confirmed = self.confirmed_nonce(address);
        let mut result: Vec<&Tx> = Vec::new();
        match self.find_entry(address) {
            None => {
                proof {
                    assert(self.queue(address) =~= Seq::<Tx>::empty());
                    assert(executable_of(self.queue(address), confirmed).len() == 0);
                }
                result
            },
            Some(i) => {
                let q = &self.pending[i].1;
                let ghost qs = q@;
                let n = q.len();
                let mut expected: u128 = confirmed as u128;
                let mut k: usize = 0;
                proof {
                    assert(qs.skip(0) =~= qs);
                    lemma_gapless_bound(qs, confirmed as int);
                }
                while k < n
                    invariant_except_break
                        gapless_len(qs, confirmed as int) >= k,
                        gapless_len(qs, confirmed as int) == k + gapless_len(qs.skip(k as int), confirmed + k),
                    invariant
                        n == qs.len(),
                        q@ == qs,
                        k <= n,
                        expected == confirmed + k,
                        refs_of(result@, qs.take(k as int)),
                    ensures
                        gapless_len(qs, confirmed as int) == k,
                        refs_of(result@, qs.take(k as int)),
                    decreases n - k,
                {
                    proof {
                        lemma_gapless_step(qs, confirmed as int, k as int);
                    }
                    if q[k].nonce as u128 == expected {
                        result.push(&q[k]);

                        expected = expected + 1;
                        k = k + 1;
                        proof {
                            lemma_gapless_bound(qs.skip(k as int), confirmed + k);
                        }
                    } else {
                        break;
                    }
                }
                proof {
                    if k == n {
                        lemma_gapless_bound(qs.skip(k as int), confirmed + k);
                    }
                }
                result
            },
        }
    }

    /// Executable transactions of every address with a queue.
    pub fn get_all_executable(&self) -> (r: Vec<&Tx>)
        requires
            self.wf(),
        ensures
            refs_of(r@, all_executable(self.spec_entries(), self.spec_confirmed())),
    {
        let mut result: Vec<&Tx> = Vec::new();
        let n = self.pending.len();
        let mut i: usize = 0;
        proof {
            assert(self.spec_entries().take(0) =~= Seq::<(Address, Seq<Tx>)>::empty());
        }
        while i < n
            invariant
                n == self.spec_entries().len(),
                self.wf(),
                i <= n,
                refs_of(result@, all_executable(self.spec_entries().take(i as int), self.spec_confirmed())),
            decreases n - i,
        {
            let a = self.pending[i].0;
            let ex = self.get_executable(a);
            proof {
                self.lemma_queue_at(i as int);
                let e = self.spec_entries();
                assert(e.take(i as int + 1).drop_last() =~= e.take(i as int));
                assert(e.take(i as int + 1).last() == e[i as int]);
            }
            let mut j: usize = 0;
            let ghost before = result@;
            while j < ex.len()
                invariant
                    j <= ex@.len(),
                    before.len() + j == result@.len(),
                    forall|x: int| 0 <= x < before.len() ==> #[trigger] result@[x] == before[x],
                    forall|x: int| 0 <= x < j ==> #[trigger] result@[before.len() + x] == ex@[x],
                decreases ex@.len() - j,
            {
                result.push(ex[j]);
                j = j + 1;
            }
            proof {
                let e = self.spec_entries();
                let a_all = all_executable(e.take(i as int + 1), self.spec_confirmed());
                assert(a_all == all_executable(e.take(i as int), self.spec_confirmed())
                    + executable_of(self.queue(a), self.conf(a)));
                assert forall|x: int| 0 <= x < result@.len() implies #[trigger] result@[x] == a_all[x] by {
                    if x >= before.len() {
                        assert(result@[before.len() + (x - before.len())] == ex@[x - before.len()]);
                    }
                }
            }
            i = i + 1;
        }
        proof {
            assert(self.spec_entries().take(n as int) =~= self.spec_entries());
        }
        result
    }

    /// Executable transactions of every address, highest priority fee first
    /// (ties in the order of `get_all_executable`).
    pub fn get_executable_sorted(&self) -> (r: Vec<&Tx>)
        requires
            self.wf(),
        ensures
            listed_in_order(all_executable(self.spec_entries(), self.spec_confirmed()),
                descending_density_keys(all_executable(self.spec_entries(), self.spec_confirmed())), r@),
    {
        let all = self.get_all_executable();
        let ghost s = all_executable(self.spec_entries(), self.spec_confirmed());
        assert(refs_of(all@, s));
        let n = all.len();
        let mut keys: Vec<u128> = Vec::new();
        let mut i: usize = 0;
        while i < n
            invariant
                n == all@.len(),
                refs_of(all@, s),
                i <= n,
                keys@.len() == i,
                forall|j: int| 0 <= j < i ==> #[trigger] keys@[j] == descending_density_keys(s)[j],
            decreases n - i,
        {
            keys.push(all[i].priority_fee_gwei as u128);
            i = i + 1;
        }
        assert(keys@ =~= descending_density_keys(s));
        let order = sort_desc(&keys);
        let mut r: Vec<&Tx> = Vec::new();
        let mut a: usize = 0;
        while a < n
            invariant
                n == order@.len(),
                n == s.len(),
                refs_of(all@, s),
                is_desc_order(keys@, order@),
                a <= n,
                r@.len() == a,
                forall|b: int| 0 <= b < a ==> r@[b] == s[#[trigger] order@[b] as int],
            decreases n - a,
        {
            r.push(all[order[a]]);
            a = a + 1;
        }
        r
    }

    /// Whether a transaction is executable: its nonce is the confirmed nonce, or
    /// above it with every nonce in between pending.
    pub fn is_executable(&self, tx: &Tx) -> (b: bool)
        requires
            self.wf(),
        ensures
            b == self.executable_tx(*tx),
    {
        let confirmed = self.confirmed_nonce(tx.sender);
        if tx.nonce < confirmed {
            return false;
        }
        if tx.nonce == confirmed {
            return true;
        }
        match self.find_entry(tx.sender) {
            None => false,
            Some(i) => {
                let q = &self.pending[i].1;
                let ghost qs = q@;
                let mut nonce = confirmed;
                while nonce < tx.nonce
                    invariant
                        q@ == qs,
                        qs == self.queue(tx.sender),
                        confirmed == self.conf(tx.sender),
                        self.has_queue(tx.sender),
                        confirmed <= nonce <= tx.nonce,
                        forall|m: u64| confirmed <= m < nonce ==> #[trigger] has_nonce(qs, m),
                    decreases tx.nonce - nonce,
                {
                    if !Self::queue_has_nonce(q, nonce) {
                        assert(!has_nonce(self.queue(tx.sender), nonce));
                        return false;
                    }
                    nonce = nonce + 1;
                }
                true
            },
        }
    }

    /// Whether a queue holds a nonce.
    fn queue_has_nonce(q: &Vec<Tx>, nonce: u64) -> (b: bool)
        ensures
            b == has_nonce(q@, nonce),
    {
        let n = q.len();
        let mut k: usize = 0;
        while k < n
            invariant
                n == q@.len(),
                k <= n,
                forall|x: int| 0 <= x < k ==> (#[trigger] q@[x]).nonce != nonce,
            decreases n - k,
        {
            if q[k].nonce == nonce {
                return true;
            }
            k = k + 1;
        }
        proof {
            if has_nonce(q@, nonce) {
                let z = choose|z: int| 0 <= z < q@.len() && #[trigger] q@[z].nonce == nonce;
            }
        }
        false
    }

    /// Mark a transaction as included: the confirmed nonce of its sender rises past
    /// it (dropping older pending transactions), and it leaves the pending queue.
    pub fn mark_included(&mut self, tx: &Tx)
        requires
            old(self).wf(),
            tx.nonce < u64::MAX,
        ensures
            final(self).wf(),
            tx.nonce + 1 > old(self).conf(tx.sender) ==> {
                &&& final(self).spec_confirmed() == old(self).spec_confirmed().insert(tx.sender, (tx.nonce + 1) as u64)
                &&& final(self).queue(tx.sender) == old(self).queue(tx.sender).filter(|t: Tx| t.nonce >= tx.nonce + 1)
            },
            tx.nonce + 1 <= old(self).conf(tx.sender) ==> {
                &&& final(self).spec_confirmed() == old(self).spec_confirmed()
                &&& !has_nonce(old(self).queue(tx.sender), tx.nonce) ==> final(self).queue(tx.sender) == old(self).queue(tx.sender)
                &&& has_nonce(old(self).queue(tx.sender), tx.nonce) ==> exists|k: int| 0 <= k < old(self).queue(tx.sender).len()
                    && old(self).queue(tx.sender)[k].nonce == tx.nonce
                    && final(self).queue(tx.sender) == old(self).queue(tx.sender).remove(k)
            },
            forall|b: Address| #[trigger] final(self).has_queue(b) == old(self).has_queue(b),
            forall|b: Address| b != tx.sender ==> #[trigger] final(self).queue(b) == old(self).queue(b),
    {
        let new_nonce = tx.nonce + 1;
        let current = self.confirmed_nonce(tx.sender);
        if new_nonce > current {
            self.set_confirmed_nonce(tx.sender, new_nonce);
            let ghost mid = *self;
            let r = self.remove_tx(tx.sender, tx.nonce);
            proof {
                let f = old(self).queue(tx.sender).filter(|t: Tx| t.nonce >= new_nonce);
                assert(!has_nonce(f, tx.nonce)) by {
                    if has_nonce(f, tx.nonce) {
                        let z = choose|z: int| 0 <= z < f.len() && #[trigger] f[z].nonce == tx.nonce;
                        old(self).queue(tx.sender).lemma_filter_pred(|t: Tx| t.nonce >= new_nonce, z);
                    }
                }
            }
        } else {
            self.remove_tx(tx.sender, tx.nonce);
        }
    }

    /// Number of pending transactions of an address.
    pub fn pending_count(&self, address: Address) -> (n: usize)
        requires
            self.wf(),
        ensures
            n == self.queue(address).len(),
    {
        match self.find_entry(address) {
            None => 0,
            Some(i) => self.pending[i].1.len(),
        }
    }

    /// Total number of pending transactions.
    pub fn total_pending(&self) -> (n: usize)
        requires
            total_len(self.spec_entries()) <= usize::MAX,
        ensures
            n == total_len(self.spec_entries()),
    {
        let m = self.pending.len();
        let mut total: usize = 0;
        let mut i: usize = 0;
        proof {
            assert(self.spec_entries().take(0) =~= Seq::<(Address, Seq<Tx>)>::empty());
            lemma_total_len_prefix(self.spec_entries(), 0);
        }
        while i < m
            invariant
                m == self.spec_entries().len(),
                i <= m,
                total == total_len(self.spec_entries().take(i as int)),
                total_len(self.spec_entries()) <= usize::MAX,
            decreases m - i,
        {
            proof {
                let e = self.spec_entries();
                assert(e.take(i as int + 1).drop_last() =~= e.take(i as int));
                lemma_total_len_prefix(e, i as int + 1);
            }
            total = total + self.pending[i].1.len();
            i = i + 1;
        }
        proof {
            assert(self.spec_entries().take(m as int) =~= self.spec_entries());
        }
        total
    }

    /// Drop the pending queue of an address.
    pub fn clear_address(&mut self, address: Address)
        requires
            old(self).wf(),
        ensures
            final(self).wf(),
            final(self).spec_confirmed() == old(self).spec_confirmed(),
            !final(self).has_queue(address),
            final(self).queue(address) == Seq::<Tx>::empty(),
            forall|b: Address| b != address ==> #[trigger] final(self).has_queue(b) == old(self).has_queue(b)
                && final(self).queue(b) == old(self).queue(b),
    {
        match self.find_entry(address) {
            None => {},
            Some(i) => {
                let ghost e1 = self.spec_entries();
                self.pending.remove(i);
                proof {
                    let e2 = self.spec_entries();
                    assert(e2 =~= e1.remove(i as int));
                    assert forall|x: int, y: int| 0 <= x < e2.len() && 0 <= y < e2.len() && x != y implies #[trigger] e2[x].0 != #[trigger] e2[y].0 by {
                        let x2 = if x < i { x } else { x + 1 };
                        let y2 = if y < i { y } else { y + 1 };
                        assert(e2[x] == e1[x2] && e2[y] == e1[y2]);
                    }
                    assert forall|x: int| 0 <= x < e2.len() implies nonce_sorted(#[trigger] e2[x].1) by {
                        let x2 = if x < i { x } else { x + 1 };
                        assert(e2[x] == e1[x2]);
                    }
                    assert forall|x: int, k: int| 0 <= x < e2.len() && 0 <= k < e2[x].1.len() implies (#[trigger] e2[x].1[k]).sender == e2[x].0 by {
                        let x2 = if x < i { x } else { x + 1 };
                        assert(e2[x] == e1[x2]);
                    }
                    assert(same_elsewhere(e1, e2, address)) by {
                        assert forall|b: Address| b != address implies (#[trigger] in_entries(e1, b) <==> in_entries(e2, b)) by {
                            if in_entries(e1, b) {
                                let x = choose|x: int| 0 <= x < e1.len() && #[trigger] e1[x].0 == b;
                                assert(x != i);
                                let x2 = if x < i { x } else { x - 1 };
                                assert(e2[x2].0 == b);
                            }
                            if in_entries(e2, b) {
                                let x = choose|x: int| 0 <= x < e2.len() && #[trigger] e2[x].0 == b;
                                let x2 = if x < i { x } else { x + 1 };
                                assert(e1[x2].0 == b);
                            }
                        }
                        assert forall|x: int, y: int| 0 <= x < e1.len() && 0 <= y < e2.len() && #[trigger] e1[x].0 != address && e1[x].0 == #[trigger] e2[y].0 implies e1[x].1 == e2[y].1 by {
                            let y2 = if y < i { y } else { y + 1 };
                            assert(e2[y] == e1[y2]);
                        }
                    }
                    old(self).lemma_same_elsewhere(self, address);
                    if self.has_queue(address) {
                        let x = choose|x: int| 0 <= x < e2.len() && #[trigger] e2[x].0 == address;
                        let x2 = if x < i { x } else { x + 1 };
                        assert(e2[x] == e1[x2]);
                    }
                }
            },
        }
    }

    /// Drop every pending queue (confirmed nonces stay).
    pub fn clear(&mut self)
        ensures
            final(self).wf(),
            final(self).spec_confirmed() == old(self).spec_confirmed(),
            final(self).spec_entries() == Seq::<(Address, Seq<Tx>)>::empty(),
    {
        self.pending.clear();
        assert(self.spec_entries() =~= Seq::<(Address, Seq<Tx>)>::empty());
    }

    /// Queued (not yet executable) transactions of an address, in nonce order.
    pub fn get_queued(&self, address: Address) -> (r: Vec<&Tx>)
        requires
            self.wf(),
        ensures
            refs_of(r@, self.queue(address).skip(executable_of(self.queue(address), self.conf(address)).len() as int)),
    {
        let executable = self.get_executable(address);
        let executable_count = executable.len();
        let mut result: Vec<&Tx> = Vec::new();
        match self.find_entry(address) {
            None => {
                proof {
                    assert(self.queue(address) =~= Seq::<Tx>::empty());
                    assert(self.queue(address).skip(executable_count as int).len() == 0);
                }
                result
            },
            Some(i) => {
                let q = &self.pending[i].1;
                let n = q.len();
                let mut k: usize = executable_count;
                proof {
                    lemma_gapless_bound(q@, self.conf(address) as int);
                }
                while k < n
                    invariant
                        n == q@.len(),
                        executable_count <= k <= n,
                        refs_of(result@, q@.subrange(executable_count as int, k as int)),
                    decreases n - k,
                {
                    result.push(&q[k]);
                    k = k + 1;
                }
                proof {
                    assert(q@.subrange(executable_count as int, n as int) =~= q@.skip(executable_count as int));
                }
                result
            },
        }
    }

    /// Confirmed nonce of an address (zero when unknown).
    pub fn confirmed_nonce(&self, address: Address) -> (n: u64)
        ensures
            n == self.conf(address),
    {
        match self.confirmed_nonces.get(&address) {
            Some(n) => *n,
            None => 0,
        }
    }

    /// Next expected nonce of an address: its confirmed nonce.
    pub fn next_nonce(&self, address: Address) -> (n: u64)
        ensures
            n == self.conf(address),
    {
        match self.confirmed_nonces.get(&address) {
            Some(n) => *n,
            None => 0,
        }
    }
}

impl Default for NonceTracker {
    fn default() -> (t: Self)
        ensures
            t.wf(),
            t.spec_confirmed() == Map::<Address, u64>::empty(),
            t.spec_entries() == Seq::<(Address, Seq<Tx>)>::empty(),
    {
        NonceTracker::new()
    }
}

/// The gapless run at the front of `s` from `start`: its nonces are `start`,
/// `start + 1`, ..., and the transaction after it (if any) breaks the run.
pub proof fn lemma_gapless(s: Seq<Tx>, start: int)
    ensures
        0 <= gapless_len(s, start) <= s.len(),
        forall|j: int| 0 <= j < gapless_len(s, start) ==> #[trigger] s[j].nonce == start + j,
        gapless_len(s, start) < s.len() ==> s[gapless_len(s, start)].nonce != start + gapless_len(s, start),
    decreases s.len(),
{
    if s.len() > 0 && s[0].nonce == start {
        lemma_gapless(s.drop_first(), start + 1);
        assert forall|j: int| 0 <= j < gapless_len(s, start) implies #[trigger] s[j].nonce == start + j by {
            if j > 0 {
                assert(s[j] == s.drop_first()[j - 1]);
            }
        }
    }
}

/// The executable transactions of an address are exactly the front of its queue
/// that `is_executable` accepts, and the queued rest are those it refuses: the
/// two lists split the queue, so their counts add up to the pending count.
pub proof fn lemma_executable_split(t: NonceTracker, a: Address)
    requires
        t.wf(),
    ensures
        ({
            let q = t.queue(a);
            let ex = executable_of(q, t.conf(a));
            &&& ex.len() + q.skip(ex.len() as int).len() == q.len()
            &&& forall|j: int| 0 <= j < ex.len() ==> t.executable_tx(#[trigger] q[j])
            &&& forall|j: int| ex.len() <= j < q.len() ==> !t.executable_tx(#[trigger] q[j])
        }),
{
    let q = t.queue(a);
    let c = t.conf(a);
    lemma_gapless(q, c as int);
    let g = gapless_len(q, c as int);
    if t.has_queue(a) {
        let i = choose|i: int| 0 <= i < t.spec_entries().len() && #[trigger] t.spec_entries()[i].0 == a;
        assert(q == t.spec_entries()[i].1);
        assert(nonce_sorted(q));
        assert forall|j: int| 0 <= j < q.len() implies #[trigger] q[j].sender == a && q[j].nonce >= c by {
            assert(t.spec_entries()[i].1[j] == q[j]);
        }
        assert forall|j: int| 0 <= j < g implies t.executable_tx(#[trigger] q[j]) by {
            assert(q[j].nonce == c + j);
            if j > 0 {
                assert forall|n: u64| c <= n < q[j].nonce implies #[trigger] has_nonce(q, n) by {
                    let x = n - c;
                    assert(q[x].nonce == c + x);
                }
            }
        }
        assert forall|j: int| g <= j < q.len() implies !t.executable_tx(#[trigger] q[j]) by {
            if g > 0 {
                assert(q[g - 1].nonce == c + g - 1);
                assert(q[g - 1].nonce < q[g].nonce);
            }
            assert(q[g].nonce > c + g);
            if j > g {
                assert(q[g].nonce < q[j].nonce);
            }
            let m = (c + g) as u64;
            assert(!has_nonce(q, m)) by {
                if has_nonce(q, m) {
                    let z = choose|z: int| 0 <= z < q.len() && #[trigger] q[z].nonce == m;
                    if z < g {
                        assert(q[z].nonce == c + z);
                    } else if z > g {
                        assert(q[g].nonce < q[z].nonce);
                    }
                }
            }
            assert(c <= m < q[j].nonce);
        }
    } else {
        assert(q =~= Seq::<Tx>::empty());
    }
}

} // verus!
