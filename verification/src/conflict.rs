use vstd::prelude::*;
use crate::tx::{TxId, Address};
use crate::order::{sort_desc, is_desc_order};

verus! {

/// A storage slot that a transaction can access.
#[derive(Debug, Clone, Copy, PartialEq, Eq, Hash, Structural)]
pub struct StorageSlot {
    pub contract: Address,
    pub slot: u64,
}

impl StorageSlot {
    pub fn new(contract: Address, slot: u64) -> (s: Self)
        ensures
            s.contract == contract,
            s.slot == slot,
    {
        StorageSlot { contract, slot }
    }
}

/// Some slot is in both sequences.
pub open spec fn meets(a: Seq<StorageSlot>, b: Seq<StorageSlot>) -> bool {
    exists|i: int, j: int| 0 <= i < a.len() && 0 <= j < b.len() && #[trigger] a[i] == #[trigger] b[j]
}

/// Whether two slot lists share a slot.
fn slots_meet(a: &Vec<StorageSlot>, b: &Vec<StorageSlot>) -> (r: bool)
    ensures
        r == meets(a@, b@),
{
    let n = a.len();
    let m = b.len();
    let mut i: usize = 0;
    while i < n
        invariant
            n == a@.len(),
            m == b@.len(),
            i <= n,
            forall|x: int, y: int| 0 <= x < i && 0 <= y < m ==> #[trigger] a@[x] != #[trigger] b@[y],
        decreases n - i,
    {
        let mut j: usize = 0;
        while j < m
            invariant
                n == a@.len(),
                m == b@.len(),
                i < n,
                j <= m,
                forall|x: int, y: int| 0 <= x < i && 0 <= y < m ==> #[trigger] a@[x] != #[trigger] b@[y],
                forall|y: int| 0 <= y < j ==> a@[i as int] != #[trigger] b@[y],
            decreases m - j,
        {
            if a[i] == b[j] {
                return true;
            }
            j = j + 1;
        }
        i = i + 1;
    }
    false
}

/// Access pattern of a transaction; each list is a set of slots.
#[derive(Debug, Clone)]
pub struct AccessList {
    /// Storage slots read by this transaction
    pub reads: Vec<StorageSlot>,
    /// Storage slots written by this transaction
    pub writes: Vec<StorageSlot>,
    /// Contracts called by this transaction
    pub contracts_touched: Vec<Address>,
}

/// One access list conflicts with another: one writes a slot that the other
/// reads or writes.
pub open spec fn lists_conflict(a: AccessList, b: AccessList) -> bool {
    meets(a.writes@, b.writes@) || meets(a.writes@, b.reads@) || meets(a.reads@, b.writes@)
}

impl AccessList {
    /// Create an empty access list.
    pub fn new() -> (a: Self)
        ensures
            a.reads@ == Seq::<StorageSlot>::empty(),
            a.writes@ == Seq::<StorageSlot>::empty(),
            a.contracts_touched@ == Seq::<Address>::empty(),
    {
        AccessList { reads: Vec::new(), writes: Vec::new(), contracts_touched: Vec::new() }
    }

    /// Record a read of a slot.
    pub fn add_read(&mut self, contract: Address, slot: u64)
        ensures
            final(self).reads@.to_set() == old(self).reads@.to_set().insert(StorageSlot { contract, slot }),
            final(self).writes@ == old(self).writes@,
            final(self).contracts_touched@.to_set() == old(self).contracts_touched@.to_set().insert(contract),
    {
        let s = StorageSlot::new(contract, slot);
        insert_slot(&mut self.reads, s);
        insert_address(&mut self.contracts_touched, contract);
    }

    /// Record a write of a slot.
    pub fn add_write(&mut self, contract: Address, slot: u64)
        ensures
            final(self).writes@.to_set() == old(self).writes@.to_set().insert(StorageSlot { contract, slot }),
            final(self).reads@ == old(self).reads@,
            final(self).contracts_touched@.to_set() == old(self).contracts_touched@.to_set().insert(contract),
    {
        let s = StorageSlot::new(contract, slot);
        insert_slot(&mut self.writes, s);
        insert_address(&mut self.contracts_touched, contract);
    }

    /// Record a call of a contract.
    pub fn add_contract(&mut self, contract: Address)
        ensures
            final(self).reads@ == old(self).reads@,
            final(self).writes@ == old(self).writes@,
            final(self).contracts_touched@.to_set() == old(self).contracts_touched@.to_set().insert(contract),
    {
        insert_address(&mut self.contracts_touched, contract);
    }

    /// Whether this access list conflicts with another: one writes a slot the
    /// other reads or writes.
    pub fn conflicts_with(&self, other: &AccessList) -> (r: bool)
        ensures
            r == lists_conflict(*self, *other),
    {
        if slots_meet(&self.writes, &other.writes) {
            return true;
        }
        if slots_meet(&self.writes, &other.reads) {
            return true;
        }
        if slots_meet(&self.reads, &other.writes) {
            return true;
        }
        false
    }

    /// Whether this transaction must come before another: the other reads a slot
    /// that this one writes.
    pub fn must_precede(&self, other: &AccessList) -> (r: bool)
        ensures
            r == meets(self.writes@, other.reads@),
    {
        slots_meet(&self.writes, &other.reads)
    }
}

/// Add a slot to a list unless it is there.
fn insert_slot(v: &mut Vec<StorageSlot>, s: StorageSlot)
    ensures
        final(v)@.to_set() == old(v)@.to_set().insert(s),
        !old(v)@.contains(s) ==> final(v)@ == old(v)@.push(s),
        old(v)@.contains(s) ==> final(v)@ == old(v)@,
{
    let n = v.len();
    let mut i: usize = 0;
    while i < n
        invariant
            n == v@.len(),
            *v == *old(v),
            i <= n,
            forall|j: int| 0 <= j < i ==> v@[j] != s,
        decreases n - i,
    {
        if v[i] == s {
            proof {
                assert(v@.contains(s));
                assert(v@.to_set().insert(s) =~= v@.to_set());
            }
            return;
        }
        i = i + 1;
    }
    proof {
        if v@.contains(s) {
            let j = choose|j: int| 0 <= j < v@.len() && v@[j] == s;
        }
    }
    v.push(s);
    proof {
        old(v)@.lemma_push_to_set_commute(s);
    }
}

/// Add an address to a list unless it is there.
fn insert_address(v: &mut Vec<Address>, a: Address)
    ensures
        final(v)@.to_set() == old(v)@.to_set().insert(a),
{
    let n = v.len();
    let mut i: usize = 0;
    while i < n
        invariant
            n == v@.len(),
            *v == *old(v),
            i <= n,
            forall|j: int| 0 <= j < i ==> v@[j] != a,
        decreases n - i,
    {
        if v[i] == a {
            proof {
                assert(v@.contains(a));
                assert(v@.to_set().insert(a) =~= v@.to_set());
            }
            return;
        }
        i = i + 1;
    }
    v.push(a);
    proof {
        old(v)@.lemma_push_to_set_commute(a);
    }
}

/// Whether an id is in a vector.
fn vec_contains(v: &Vec<TxId>, x: TxId) -> (b: bool)
    ensures
        b == v@.contains(x),
{
    let n = v.len();
    let mut i: usize = 0;
    while i < n
        invariant
            n == v@.len(),
            i <= n,
            forall|j: int| 0 <= j < i ==> v@[j] != x,
        decreases n - i,
    {
        if v[i] == x {
            assert(v@[i as int] == x);
            return true;
        }
        i = i + 1;
    }
    false
}

/// Type of conflict between two transactions.
#[derive(Debug, Clone, Copy, PartialEq, Eq, Structural)]
pub enum ConflictType {
    /// Both write to the same slot
    WriteWrite,
    /// One writes, the other reads the same slot
    WriteRead,
    /// No conflict
    NoConflict,
}

/// The unordered pair of two ids, smaller first.
pub open spec fn pair_of(a: TxId, b: TxId) -> (TxId, TxId) {
    if a < b { (a, b) } else { (b, a) }
}

/// The conflict pairs that registering `al` under `id` adds, against `lists`.
pub open spec fn new_pairs(lists: Seq<(TxId, AccessList)>, id: TxId, al: AccessList) -> Set<(TxId, TxId)> {
    Set::new(|p: (TxId, TxId)| exists|i: int| 0 <= i < lists.len() && lists_conflict(al, #[trigger] lists[i].1)
        && p == pair_of(id, lists[i].0))
}

/// How many of the registered lists conflict with `al`.
pub open spec fn conflicting_count(lists: Seq<(TxId, AccessList)>, al: AccessList) -> int
    decreases lists.len(),
{
    if lists.len() == 0 {
        0
    } else {
        conflicting_count(lists.drop_last(), al) + if lists_conflict(al, lists.last().1) { 1int } else { 0 }
    }
}

/// Keys that order ids ascending under a stable descending sort.
pub open spec fn ascending_id_keys(ids: Seq<TxId>) -> Seq<u128> {
    ids.map_values(|id: TxId| (u64::MAX - id) as u128)
}

/// `s` is `ids` rearranged in ascending order, equal ids kept in their given
/// order.
pub open spec fn by_ascending_id(ids: Seq<TxId>, s: Seq<TxId>) -> bool {
    exists|p: Seq<usize>| is_desc_order(ascending_id_keys(ids), p)
        && s == p.map_values(|i: usize| ids[i as int])
}

/// Greedy choice of non-conflicting ids: taking `ids` in order, each one that
/// conflicts with no id already chosen is chosen.
pub open spec fn select_non_conflicting(ids: Seq<TxId>, c: Set<(TxId, TxId)>) -> Seq<TxId>
    decreases ids.len(),
{
    if ids.len() == 0 {
        Seq::empty()
    } else {
        let prev = select_non_conflicting(ids.drop_last(), c);
        if exists|j: int| 0 <= j < prev.len() && c.contains(pair_of(#[trigger] prev[j], ids.last())) {
            prev
        } else {
            prev.push(ids.last())
        }
    }
}

/// Tracks conflicts between transactions.
#[derive(Debug)]
pub struct ConflictTracker {
    /// Access lists per transaction
    access_lists: Vec<(TxId, AccessList)>,
    /// Conflict pairs, smaller id first
    conflicts: Vec<(TxId, TxId)>,
}

impl ConflictTracker {
    /// Registered transactions and their access lists, in order of registration.
    pub closed spec fn spec_lists(&self) -> Seq<(TxId, AccessList)> {
        self.access_lists@
    }

    /// The conflict pairs.
    pub closed spec fn spec_pairs(&self) -> Seq<(TxId, TxId)> {
        self.conflicts@
    }

    /// The set of conflict pairs.
    pub open spec fn spec_conflicts(&self) -> Set<(TxId, TxId)> {
        self.spec_pairs().to_set()
    }

    /// Whether a transaction is registered.
    pub open spec fn registered(&self, id: TxId) -> bool {
        exists|i: int| 0 <= i < self.spec_lists().len() && #[trigger] self.spec_lists()[i].0 == id
    }

    /// The access list of a registered transaction.
    pub open spec fn list_of(&self, id: TxId) -> AccessList {
        self.spec_lists()[choose|i: int| 0 <= i < self.spec_lists().len() && #[trigger] self.spec_lists()[i].0 == id].1
    }

    /// Ids are registered once; pairs are stored once, smaller id first.
    pub open spec fn wf(&self) -> bool {
        &&& self.shape_ok()
        &&& self.pairs_registered()
    }

    /// Ids are registered once; pairs are stored once, smaller id first.
    pub open spec fn shape_ok(&self) -> bool {
        &&& forall|i: int, j: int| 0 <= i < self.spec_lists().len() && 0 <= j < self.spec_lists().len() && i != j
            ==> #[trigger] self.spec_lists()[i].0 != #[trigger] self.spec_lists()[j].0
        &&& self.spec_pairs().no_duplicates()
        &&& forall|i: int| 0 <= i < self.spec_pairs().len() ==> (#[trigger] self.spec_pairs()[i]).0 <= self.spec_pairs()[i].1
    }

    /// Every stored pair names two registered ids.
    pub open spec fn pairs_registered(&self) -> bool {
        forall|i: int| 0 <= i < self.spec_pairs().len() ==>
            self.registered((#[trigger] self.spec_pairs()[i]).0) && self.registered(self.spec_pairs()[i].1)
    }

    proof fn lemma_list_at(&self, i: int)
        requires
            self.shape_ok(),
            0 <= i < self.spec_lists().len(),
        ensures
            self.registered(self.spec_lists()[i].0),
            self.list_of(self.spec_lists()[i].0) == self.spec_lists()[i].1,
    {
        let id = self.spec_lists()[i].0;
        assert(self.spec_lists()[i].0 == id);
        let j = choose|j: int| 0 <= j < self.spec_lists().len() && #[trigger] self.spec_lists()[j].0 == id;
        assert(i == j);
    }

    /// Create an empty tracker.
    pub fn new() -> (t: Self)
        ensures
            t.wf(),
            t.spec_lists() == Seq::<(TxId, AccessList)>::empty(),
            t.spec_pairs() == Seq::<(TxId, TxId)>::empty(),
    {
        ConflictTracker { access_lists: Vec::new(), conflicts: Vec::new() }
    }

    /// Position of a registered id.
    fn find(&self, id: TxId) -> (r: Option<usize>)
        requires
            self.shape_ok(),
        ensures
            r is None <==> !self.registered(id),
            r matches Some(i) ==> i < self.spec_lists().len() && self.spec_lists()[i as int].0 == id
                && self.list_of(id) == self.spec_lists()[i as int].1,
    {
        let n = self.access_lists.len();
        let mut i: usize = 0;
        while i < n
            invariant
                n == self.spec_lists().len(),
                self.shape_ok(),
                i <= n,
                forall|j: int| 0 <= j < i ==> #[trigger] self.spec_lists()[j].0 != id,
            decreases n - i,
        {
            if self.access_lists[i].0 == id {
                proof {
                    self.lemma_list_at(i as int);
                }
                return Some(i);
            }
            i = i + 1;
        }
        proof {
            if self.registered(id) {
                let j = choose|j: int| 0 <= j < self.spec_lists().len() && #[trigger] self.spec_lists()[j].0 == id;
                assert(self.spec_lists()[j].0 != id);
            }
        }
        None
    }

    /// Whether a pair is stored.
    fn has_pair(&self, p: (TxId, TxId)) -> (r: bool)
        ensures
            r == self.spec_conflicts().contains(p),
    {
        let n = self.conflicts.len();
        let mut i: usize = 0;
        while i < n
            invariant
                n == self.spec_pairs().len(),
                i <= n,
                forall|j: int| 0 <= j < i ==> #[trigger] self.spec_pairs()[j] != p,
            decreases n - i,
        {
            if self.conflicts[i].0 == p.0 && self.conflicts[i].1 == p.1 {
                proof {
                    assert(self.spec_pairs()[i as int] == p);
                    assert(self.spec_pairs().contains(p));
                }
                return true;
            }
            i = i + 1;
        }
        proof {
            if self.spec_pairs().contains(p) {
                let j = choose|j: int| 0 <= j < self.spec_pairs().len() && self.spec_pairs()[j] == p;
                assert(self.spec_pairs()[j] != p);
            }
        }
        false
    }

    /// Remove a transaction: its access list and every pair that names it.
    pub fn remove(&mut self, tx_id: TxId)
        requires
            old(self).wf(),
        ensures
            final(self).wf(),
            final(self).spec_conflicts() == old(self).spec_conflicts().filter(|p: (TxId, TxId)| p.0 != tx_id && p.1 != tx_id),
            !final(self).registered(tx_id),
            final(self).spec_lists().len() == old(self).spec_lists().len() - (if old(self).registered(tx_id) { 1int } else { 0 }),
            forall|x: TxId| x != tx_id ==> #[trigger] final(self).registered(x) == old(self).registered(x),
            forall|x: TxId| x != tx_id && old(self).registered(x) ==> #[trigger] final(self).list_of(x) == old(self).list_of(x),
    {
        let ghost l1 = self.spec_lists();
        match self.find(tx_id) {
            Some(k) => {
                self.access_lists.remove(k);
                proof {
                    let l2 = self.spec_lists();
                    assert(l2 == l1.remove(k as int));
                    assert forall|x: int, y: int| 0 <= x < l2.len() && 0 <= y < l2.len() && x != y
                        implies #[trigger] l2[x].0 != #[trigger] l2[y].0 by {
                        let x2 = if x < k { x } else { x + 1 };
                        let y2 = if y < k { y } else { y + 1 };
                        assert(l2[x] == l1[x2] && l2[y] == l1[y2]);
                    }
                    assert forall|x: TxId| x != tx_id implies #[trigger] self.registered(x) == old(self).registered(x) by {
                        if old(self).registered(x) {
                            let j = choose|j: int| 0 <= j < l1.len() && #[trigger] l1[j].0 == x;
                            assert(j != k as int);
                            let j2 = if j < k { j } else { j - 1 };
                            assert(l2[j2] == l1[j]);
                        }
                        if self.registered(x) {
                            let j = choose|j: int| 0 <= j < l2.len() && #[trigger] l2[j].0 == x;
                            let j2 = if j < k { j } else { j + 1 };
                            assert(l2[j] == l1[j2]);
                        }
                    }
                    assert forall|x: TxId| x != tx_id && old(self).registered(x) implies #[trigger] self.list_of(x) == old(self).list_of(x) by {
                        let j = choose|j: int| 0 <= j < l1.len() && #[trigger] l1[j].0 == x;
                        old(self).lemma_list_at(j);
                        assert(j != k as int);
                        let j2 = if j < k { j } else { j - 1 };
                        assert(l2[j2] == l1[j]);
                        self.lemma_list_at(j2);
                    }
                    if self.registered(tx_id) {
                        let j = choose|j: int| 0 <= j < l2.len() && #[trigger] l2[j].0 == tx_id;
                        let j2 = if j < k { j } else { j + 1 };
                        assert(l2[j] == l1[j2]);
                    }
                }
            },
            None => {},
        }
        let ghost mid = *self;
        let ghost pairs = self.spec_pairs();
        let ghost pred = |p: (TxId, TxId)| p.0 != tx_id && p.1 != tx_id;
        let mut kept: Vec<(TxId, TxId)> = Vec::new();
        let n = self.conflicts.len();
        let mut i: usize = 0;
        proof {
            reveal(Seq::filter);
            assert(pairs.take(0).filter(pred) =~= Seq::<(TxId, TxId)>::empty());
        }
        while i < n
            invariant
                n == pairs.len(),
                self.conflicts@ == pairs,
                pairs == old(self).spec_pairs(),
                old(self).wf(),
                i <= n,
                kept@ == pairs.take(i as int).filter(pred),
                kept@.no_duplicates(),
                forall|x: int| 0 <= x < kept@.len() ==> exists|y: int| 0 <= y < i && #[trigger] kept@[x] == pairs[y],
                pred == (|p: (TxId, TxId)| p.0 != tx_id && p.1 != tx_id),
            decreases n - i,
        {
            let p = self.conflicts[i];
            proof {
                assert(pairs.take(i as int + 1) =~= pairs.take(i as int).push(p));
                pairs.take(i as int).lemma_filter_push(p, pred);
            }
            if p.0 != tx_id && p.1 != tx_id {
                let ghost before = kept@;
                kept.push(p);
                proof {
                    assert forall|x: int, y: int| 0 <= x < kept@.len() && 0 <= y < kept@.len() && x != y implies kept@[x] != kept@[y] by {
                        if x == before.len() {
                            let z = choose|z: int| 0 <= z < i && #[trigger] before[y] == pairs[z];
                            assert(z != i as int);
                        } else if y == before.len() {
                            let z = choose|z: int| 0 <= z < i && #[trigger] before[x] == pairs[z];
                            assert(z != i as int);
                        } else {
                            assert(kept@[x] == before[x] && kept@[y] == before[y]);
                        }
                    }
                    assert forall|x: int| 0 <= x < kept@.len() implies exists|y: int| 0 <= y < i + 1 && #[trigger] kept@[x] == pairs[y] by {
                        if x == before.len() {
                            assert(kept@[x] == pairs[i as int]);
                        } else {
                            assert(kept@[x] == before[x]);
                            let z = choose|z: int| 0 <= z < i && #[trigger] before[x] == pairs[z];
                            assert(kept@[x] == pairs[z]);
                        }
                    }
                }
            }
            i = i + 1;
        }
        proof {
            assert(pairs.take(n as int) =~= pairs);
            assert(kept@.to_set() =~= pairs.to_set().filter(pred)) by {
                assert forall|q: (TxId, TxId)| kept@.to_set().contains(q) <==> pairs.to_set().filter(pred).contains(q) by {
                    if kept@.contains(q) {
                        let x = choose|x: int| 0 <= x < kept@.len() && kept@[x] == q;
                        pairs.lemma_filter_pred(pred, x);
                        let y = choose|y: int| 0 <= y < n && #[trigger] kept@[x] == pairs[y];
                    }
                    if pairs.contains(q) && pred(q) {
                        let y = choose|y: int| 0 <= y < pairs.len() && pairs[y] == q;
                        pairs.lemma_filter_contains(pred, y);
                    }
                }
            }
            assert forall|x: int| 0 <= x < kept@.len() implies (#[trigger] kept@[x]).0 <= kept@[x].1 by {
                let y = choose|y: int| 0 <= y < n && #[trigger] kept@[x] == pairs[y];
            }
        }
        self.conflicts = kept;
        proof {
            assert(self.spec_lists() == mid.spec_lists());
            assert forall|x: TxId| x != tx_id implies #[trigger] self.registered(x) == old(self).registered(x) by {
                assert(self.registered(x) == mid.registered(x));
                assert(mid.registered(x) == old(self).registered(x));
            }
            assert forall|x: TxId| x != tx_id && old(self).registered(x) implies #[trigger] self.list_of(x) == old(self).list_of(x) by {
                assert(self.list_of(x) == mid.list_of(x));
                assert(mid.list_of(x) == old(self).list_of(x));
            }
        }
    }

    /// Whether two transactions conflict.
    pub fn conflicts(&self, tx1: TxId, tx2: TxId) -> (r: bool)
        ensures
            r == self.spec_conflicts().contains(pair_of(tx1, tx2)),
    {
        let pair = if tx1 < tx2 { (tx1, tx2) } else { (tx2, tx1) };
        self.has_pair(pair)
    }

    /// The transactions that conflict with a transaction, each once.
    pub fn get_conflicts(&self, tx_id: TxId) -> (r: Vec<TxId>)
        requires
            self.wf(),
        ensures
            r@.no_duplicates(),
            forall|x: TxId| #[trigger] r@.contains(x) <==> self.spec_conflicts().contains(pair_of(tx_id, x)),
    {
        let n = self.conflicts.len();
        let ghost pairs = self.spec_pairs();
        let mut r: Vec<TxId> = Vec::new();
        let mut i: usize = 0;
        while i < n
            invariant
                n == pairs.len(),
                pairs == self.spec_pairs(),
                self.wf(),
                i <= n,
                r@.no_duplicates(),
                forall|x: TxId| #[trigger] r@.contains(x) <==> exists|j: int| 0 <= j < i && #[trigger] pairs[j] == pair_of(tx_id, x),
            decreases n - i,
        {
            let (a, b) = self.conflicts[i];
            let other: Option<TxId> = if a == tx_id { Some(b) } else if b == tx_id { Some(a) } else { None };
            proof {
                assert(pairs[i as int] == (a, b));
                assert(a <= b);
                assert forall|x: TxId| (exists|j: int| 0 <= j < i + 1 && #[trigger] pairs[j] == pair_of(tx_id, x))
                    <==> ((exists|j: int| 0 <= j < i && #[trigger] pairs[j] == pair_of(tx_id, x)) || other == Some(x)) by {
                    if other == Some(x) {
                        assert(pairs[i as int] == pair_of(tx_id, x));
                    }
                    if pairs[i as int] == pair_of(tx_id, x) {
                        assert(other == Some(x));
                    }
                }
            }
            match other {
                Some(x) => {
                    proof {
                        assert(!r@.contains(x)) by {
                            if r@.contains(x) {
                                let j = choose|j: int| 0 <= j < i && #[trigger] pairs[j] == pair_of(tx_id, x);
                                assert(pairs[j] == pairs[i as int]);
                            }
                        }
                    }
                    let ghost before = r@;
                    r.push(x);
                    proof {
                        assert forall|y: TxId| #[trigger] r@.contains(y) <==> (before.contains(y) || y == x) by {
                            if r@.contains(y) {
                                let k = choose|k: int| 0 <= k < r@.len() && r@[k] == y;
                                if k < before.len() { assert(before[k] == y); }
                            }
                            if before.contains(y) {
                                let k = choose|k: int| 0 <= k < before.len() && before[k] == y;
                                assert(r@[k] == y);
                            }
                            if y == x { assert(r@[before.len() as int] == y); }
                        }
                        assert forall|p: int, q: int| 0 <= p < r@.len() && 0 <= q < r@.len() && p != q implies r@[p] != r@[q] by {
                            if p == before.len() { assert(before.contains(r@[q])); }
                            if q == before.len() { assert(before.contains(r@[p])); }
                        }
                    }
                },
                None => {},
            }
            i = i + 1;
        }
        proof {
            assert forall|x: TxId| #[trigger] r@.contains(x) <==> self.spec_conflicts().contains(pair_of(tx_id, x)) by {
                if self.spec_conflicts().contains(pair_of(tx_id, x)) {
                    let j = choose|j: int| 0 <= j < pairs.len() && pairs[j] == pair_of(tx_id, x);
                }
            }
        }
        r
    }

    /// Type of conflict between two registered transactions; no conflict when
    /// either is not registered.
    pub fn conflict_type(&self, tx1: TxId, tx2: TxId) -> (r: ConflictType)
        requires
            self.wf(),
        ensures
            !self.registered(tx1) || !self.registered(tx2) ==> r == ConflictType::NoConflict,
            self.registered(tx1) && self.registered(tx2) ==> r == (
                if meets(self.list_of(tx1).writes@, self.list_of(tx2).writes@) {
                    ConflictType::WriteWrite
                } else if meets(self.list_of(tx1).writes@, self.list_of(tx2).reads@)
                    || meets(self.list_of(tx1).reads@, self.list_of(tx2).writes@) {
                    ConflictType::WriteRead
                } else {
                    ConflictType::NoConflict
                }),
    {
        let i1 = match self.find(tx1) {
            Some(i) => i,
            None => return ConflictType::NoConflict,
        };
        let i2 = match self.find(tx2) {
            Some(i) => i,
            None => return ConflictType::NoConflict,
        };
        let a1 = &self.access_lists[i1].1;
        let a2 = &self.access_lists[i2].1;
        if slots_meet(&a1.writes, &a2.writes) {
            ConflictType::WriteWrite
        } else if slots_meet(&a1.writes, &a2.reads) || slots_meet(&a1.reads, &a2.writes) {
            ConflictType::WriteRead
        } else {
            ConflictType::NoConflict
        }
    }

    /// A non-conflicting subset of the ids, chosen greedily in ascending id
    /// order: each id that conflicts with no id already chosen is chosen.
    pub fn find_non_conflicting(&self, tx_ids: &[TxId]) -> (r: Vec<TxId>)
        requires
            self.wf(),
        ensures
            exists|s: Seq<TxId>| #[trigger] by_ascending_id(tx_ids@, s)
                && r@ == select_non_conflicting(s, self.spec_conflicts()),
    {
        let n = tx_ids.len();
        let mut keys: Vec<u128> = Vec::new();
        let mut i: usize = 0;
        while i < n
            invariant
                n == tx_ids@.len(),
                i <= n,
                keys@ == ascending_id_keys(tx_ids@).take(i as int),
            decreases n - i,
        {
            keys.push((u64::MAX - tx_ids[i]) as u128);
            proof {
                assert(keys@ =~= ascending_id_keys(tx_ids@).take(i as int + 1));
            }
            i = i + 1;
        }
        proof {
            assert(keys@ =~= ascending_id_keys(tx_ids@));
        }
        let p = sort_desc(&keys);
        let mut ordered: Vec<TxId> = Vec::new();
        let mut k: usize = 0;
        while k < n
            invariant
                n == tx_ids@.len(),
                is_desc_order(ascending_id_keys(tx_ids@), p@),
                k <= n,
                ordered@ == p@.map_values(|j: usize| tx_ids@[j as int]).take(k as int),
            decreases n - k,
        {
            ordered.push(tx_ids[p[k]]);
            proof {
                assert(ordered@ =~= p@.map_values(|j: usize| tx_ids@[j as int]).take(k as int + 1));
            }
            k = k + 1;
        }
        proof {
            assert(ordered@ =~= p@.map_values(|j: usize| tx_ids@[j as int]));
            assert(by_ascending_id(tx_ids@, ordered@));
        }
        self.select_in_order(ordered.as_slice())
    }

    /// The greedy selection over the ids in the given order.
    fn select_in_order(&self, tx_ids: &[TxId]) -> (r: Vec<TxId>)
        requires
            self.wf(),
        ensures
            r@ == select_non_conflicting(tx_ids@, self.spec_conflicts()),
    {
        let c = Ghost(self.spec_conflicts());
        let mut selected: Vec<TxId> = Vec::new();
        let mut excluded: Vec<TxId> = Vec::new();
        let n = tx_ids.len();
        let mut i: usize = 0;
        proof {
            assert(tx_ids@.take(0) =~= Seq::<TxId>::empty());
        }
        while i < n
            invariant
                n == tx_ids@.len(),
                self.wf(),
                c@ == self.spec_conflicts(),
                i <= n,
                selected@ == select_non_conflicting(tx_ids@.take(i as int), c@),
                forall|x: TxId| #[trigger] excluded@.contains(x) <==>
                    exists|j: int| 0 <= j < selected@.len() && c@.contains(pair_of(#[trigger] selected@[j], x)),
            decreases n - i,
        {
            let id = tx_ids[i];
            proof {
                assert(tx_ids@.take(i as int + 1).drop_last() =~= tx_ids@.take(i as int));
                assert(tx_ids@.take(i as int + 1).last() == id);
            }
            if vec_contains(&excluded, id) {
                i = i + 1;
                continue;
            }
            let ghost before_sel = selected@;
            let ghost before_ex = excluded@;
            selected.push(id);
            let conflicting = self.get_conflicts(id);
            let m = conflicting.len();
            let mut k: usize = 0;
            while k < m
                invariant
                    m == conflicting@.len(),
                    k <= m,
                    forall|x: TxId| #[trigger] excluded@.contains(x) <==>
                        (before_ex.contains(x) || exists|j: int| 0 <= j < k && conflicting@[j] == x),
                decreases m - k,
            {
                let ghost prev = excluded@;
                excluded.push(conflicting[k]);
                proof {
                    assert forall|x: TxId| #[trigger] excluded@.contains(x) <==>
                        (before_ex.contains(x) || exists|j: int| 0 <= j < k + 1 && conflicting@[j] == x) by {
                        if excluded@.contains(x) {
                            let q = choose|q: int| 0 <= q < excluded@.len() && excluded@[q] == x;
                            if q < prev.len() { assert(prev.contains(x)); }
                        }
                        if before_ex.contains(x) || exists|j: int| 0 <= j < k && conflicting@[j] == x {
                            assert(prev.contains(x));
                            let q = choose|q: int| 0 <= q < prev.len() && prev[q] == x;
                            assert(excluded@[q] == x);
                        }
                        if conflicting@[k as int] == x {
                            assert(excluded@[prev.len() as int] == x);
                        }
                    }
                }
                k = k + 1;
            }
            proof {
                assert forall|x: TxId| #[trigger] excluded@.contains(x) <==>
                    exists|j: int| 0 <= j < selected@.len() && c@.contains(pair_of(#[trigger] selected@[j], x)) by {
                    if exists|j: int| 0 <= j < m && conflicting@[j] == x {
                        let j = choose|j: int| 0 <= j < m && conflicting@[j] == x;
                        assert(conflicting@.contains(x));
                        assert(selected@[before_sel.len() as int] == id);
                    }
                    if exists|j: int| 0 <= j < selected@.len() && c@.contains(pair_of(#[trigger] selected@[j], x)) {
                        let j = choose|j: int| 0 <= j < selected@.len() && c@.contains(pair_of(#[trigger] selected@[j], x));
                        if j < before_sel.len() {
                            assert(selected@[j] == before_sel[j]);
                        } else {
                            assert(conflicting@.contains(x));
                            let q = choose|q: int| 0 <= q < m && conflicting@[q] == x;
                        }
                    }
                    if before_ex.contains(x) {
                        let j = choose|j: int| 0 <= j < before_sel.len() && c@.contains(pair_of(#[trigger] before_sel[j], x));
                        assert(selected@[j] == before_sel[j]);
                    }
                }
            }
            i = i + 1;
        }
        proof {
            assert(tx_ids@.take(n as int) =~= tx_ids@);
        }
        selected
    }

    /// Number of registered transactions.
    pub fn len(&self) -> (n: usize)
        ensures
            n == self.spec_lists().len(),
    {
        self.access_lists.len()
    }

    /// Whether no transaction is registered.
    pub fn is_empty(&self) -> (b: bool)
        ensures
            b == (self.spec_lists().len() == 0),
    {
        self.access_lists.len() == 0
    }

    /// Number of conflict pairs.
    pub fn conflict_count(&self) -> (n: usize)
        requires
            self.wf(),
        ensures
            n == self.spec_conflicts().len(),
    {
        proof {
            self.spec_pairs().unique_seq_to_set();
        }
        self.conflicts.len()
    }

    /// Forget every transaction and pair.
    pub fn clear(&mut self)
        ensures
            final(self).wf(),
            final(self).spec_lists() == Seq::<(TxId, AccessList)>::empty(),
            final(self).spec_pairs() == Seq::<(TxId, TxId)>::empty(),
    {
        self.access_lists.clear();
        self.conflicts.clear();
    }

    /// Register a transaction's access list: record a conflict pair with every
    /// registered transaction whose list conflicts with it, then store the list
    /// (replacing a list registered under the same id).
    pub fn register(&mut self, tx_id: TxId, access_list: AccessList)
        requires
            old(self).wf(),
        ensures
            final(self).wf(),
            final(self).spec_conflicts() == old(self).spec_conflicts().union(new_pairs(old(self).spec_lists(), tx_id, access_list)),
            final(self).registered(tx_id),
            final(self).list_of(tx_id) == access_list,
            forall|x: TxId| x != tx_id ==> #[trigger] final(self).registered(x) == old(self).registered(x),
            forall|x: TxId| x != tx_id && old(self).registered(x) ==> #[trigger] final(self).list_of(x) == old(self).list_of(x),
            final(self).spec_lists().len() == old(self).spec_lists().len() + (if old(self).registered(tx_id) { 0int } else { 1 }),
            !old(self).registered(tx_id) ==> final(self).spec_conflicts().len()
                == old(self).spec_conflicts().len() + conflicting_count(old(self).spec_lists(), access_list),
            !old(self).registered(tx_id) ==> forall|o: TxId| #[trigger] old(self).registered(o) ==>
                (final(self).spec_conflicts().contains(pair_of(tx_id, o)) <==> lists_conflict(access_list, old(self).list_of(o))),
            forall|a: TxId, b: TxId| a != tx_id && b != tx_id ==>
                (#[trigger] final(self).spec_conflicts().contains(pair_of(a, b)) <==> old(self).spec_conflicts().contains(pair_of(a, b))),
    {
        let n = self.access_lists.len();
        let ghost lists = self.spec_lists();
        let ghost fresh = !old(self).registered(tx_id);
        let mut i: usize = 0;
        proof {
            assert(new_pairs(lists.take(0), tx_id, access_list) =~= Set::<(TxId, TxId)>::empty());
            assert(self.spec_conflicts() =~= old(self).spec_conflicts().union(Set::<(TxId, TxId)>::empty()));
        }
        while i < n
            invariant
                n == lists.len(),
                self.access_lists@ == lists,
                lists == old(self).spec_lists(),
                old(self).wf(),
                self.shape_ok(),
                forall|j: int| 0 <= j < self.spec_pairs().len() ==>
                    (self.registered((#[trigger] self.spec_pairs()[j]).0) || self.spec_pairs()[j].0 == tx_id)
                    && (self.registered(self.spec_pairs()[j].1) || self.spec_pairs()[j].1 == tx_id),
                i <= n,
                self.spec_conflicts() == old(self).spec_conflicts().union(new_pairs(lists.take(i as int), tx_id, access_list)),
                fresh == !old(self).registered(tx_id),
                fresh ==> self.spec_pairs().len() == old(self).spec_pairs().len() + conflicting_count(lists.take(i as int), access_list),
            decreases n - i,
        {
            let other_id = self.access_lists[i].0;
            let c = access_list.conflicts_with(&self.access_lists[i].1);
            let ghost before = self.spec_conflicts();
            let pair = if tx_id < other_id { (tx_id, other_id) } else { (other_id, tx_id) };
            let ghost len0 = self.spec_pairs().len();
            proof {
                if fresh {
                    assert(!self.spec_conflicts().contains(pair)) by {
                        if old(self).spec_conflicts().contains(pair) {
                            assert(pair.0 == tx_id || pair.1 == tx_id);
                            let z = choose|z: int| 0 <= z < old(self).spec_pairs().len() && old(self).spec_pairs()[z] == pair;
                            assert(old(self).registered(old(self).spec_pairs()[z].0) && old(self).registered(old(self).spec_pairs()[z].1));
                        }
                        let np_i = new_pairs(lists.take(i as int), tx_id, access_list);
                        if np_i.contains(pair) {
                            let k = choose|k: int| 0 <= k < lists.take(i as int).len()
                                && lists_conflict(access_list, #[trigger] lists.take(i as int)[k].1)
                                && pair == pair_of(tx_id, lists.take(i as int)[k].0);
                            assert(lists.take(i as int)[k] == lists[k]);
                            assert(lists[k].0 != tx_id) by {
                                if lists[k].0 == tx_id {
                                    assert(old(self).spec_lists()[k].0 == tx_id);
                                }
                            }
                            assert(other_id != tx_id) by {
                                if other_id == tx_id {
                                    assert(old(self).spec_lists()[i as int].0 == tx_id);
                                }
                            }
                            assert(lists[k].0 == other_id);
                            assert(old(self).spec_lists()[k].0 != old(self).spec_lists()[i as int].0);
                        }
                    }
                }
            }
            if c {
                if !self.has_pair(pair) {
                    let ghost old_pairs = self.spec_pairs();
                    self.conflicts.push(pair);
                    proof {
                        assert(self.spec_pairs() == old_pairs.push(pair));
                        assert(pair.0 <= pair.1);
                        old_pairs.lemma_push_to_set_commute(pair);
                        assert forall|x: int| 0 <= x < self.spec_pairs().len() implies (#[trigger] self.spec_pairs()[x]).0 <= self.spec_pairs()[x].1 by {
                            if x < old_pairs.len() { assert(self.spec_pairs()[x] == old_pairs[x]); }
                        }
                        assert forall|x: int, y: int| 0 <= x < self.spec_pairs().len() && 0 <= y < self.spec_pairs().len() && x != y
                            implies self.spec_pairs()[x] != self.spec_pairs()[y] by {
                            if x == old_pairs.len() { assert(old_pairs.contains(self.spec_pairs()[y])); }
                            if y == old_pairs.len() { assert(old_pairs.contains(self.spec_pairs()[x])); }
                        }
                    }
                }
            }
            proof {
                let np_i = new_pairs(lists.take(i as int), tx_id, access_list);
                let np_i1 = new_pairs(lists.take(i as int + 1), tx_id, access_list);
                assert(lists.take(i as int + 1)[i as int] == lists[i as int]);
                assert forall|q: (TxId, TxId)| np_i1.contains(q) <==> (np_i.contains(q) || (c && q == pair)) by {
                    if np_i1.contains(q) {
                        let k = choose|k: int| 0 <= k < lists.take(i as int + 1).len()
                            && lists_conflict(access_list, #[trigger] lists.take(i as int + 1)[k].1)
                            && q == pair_of(tx_id, lists.take(i as int + 1)[k].0);
                        if k < i {
                            assert(lists.take(i as int)[k] == lists.take(i as int + 1)[k]);
                        }
                    }
                    if np_i.contains(q) {
                        let k = choose|k: int| 0 <= k < lists.take(i as int).len()
                            && lists_conflict(access_list, #[trigger] lists.take(i as int)[k].1)
                            && q == pair_of(tx_id, lists.take(i as int)[k].0);
                        assert(lists.take(i as int + 1)[k] == lists.take(i as int)[k]);
                    }
                    if c && q == pair {
                        assert(lists_conflict(access_list, lists.take(i as int + 1)[i as int].1));
                    }
                }
                assert(self.spec_conflicts() =~= old(self).spec_conflicts().union(np_i1));
                assert(lists.take(i as int + 1).drop_last() =~= lists.take(i as int));
                assert(lists.take(i as int + 1).last() == lists[i as int]);
                assert(self.spec_pairs().no_duplicates());
                assert(forall|i: int| 0 <= i < self.spec_pairs().len() ==> (#[trigger] self.spec_pairs()[i]).0 <= self.spec_pairs()[i].1);
                assert(self.spec_lists() == lists);
                assert forall|x: int, y: int| 0 <= x < self.spec_lists().len() && 0 <= y < self.spec_lists().len() && x != y
                    implies #[trigger] self.spec_lists()[x].0 != #[trigger] self.spec_lists()[y].0 by {
                    assert(old(self).spec_lists()[x].0 != old(self).spec_lists()[y].0);
                }
            }
            i = i + 1;
        }
        proof {
            assert(lists.take(n as int) =~= lists);
        }
        let ghost pairs_done = self.spec_pairs();
        let ghost l1 = self.spec_lists();
        assert(l1 == old(self).spec_lists());
        match self.find(tx_id) {
            Some(k) => {
                self.access_lists.set(k, (tx_id, access_list));
                proof {
                    let l2 = self.spec_lists();
                    assert(l2 == l1.update(k as int, (tx_id, access_list)));
                    assert forall|x: int, y: int| 0 <= x < l2.len() && 0 <= y < l2.len() && x != y
                        implies #[trigger] l2[x].0 != #[trigger] l2[y].0 by {
                        assert(l1[x].0 != l1[y].0);
                    }
                    self.lemma_list_at(k as int);
                    assert forall|x: TxId| x != tx_id implies #[trigger] self.registered(x) == old(self).registered(x)
                        && (old(self).registered(x) ==> self.list_of(x) == old(self).list_of(x)) by {
                        if old(self).registered(x) {
                            let j = choose|j: int| 0 <= j < old(self).spec_lists().len() && #[trigger] old(self).spec_lists()[j].0 == x;
                            old(self).lemma_list_at(j);
                            assert(j != k as int);
                            assert(l2[j] == l1[j]);
                            self.lemma_list_at(j);
                        }
                        if self.registered(x) {
                            let j = choose|j: int| 0 <= j < l2.len() && #[trigger] l2[j].0 == x;
                            assert(j != k as int);
                            assert(l1[j] == l2[j]);
                            assert(old(self).spec_lists()[j].0 == x);
                        }
                    }
                    assert forall|x: TxId| x != tx_id && old(self).registered(x) implies #[trigger] self.list_of(x) == old(self).list_of(x) by {
                        assert(self.registered(x) == old(self).registered(x));
                    }
                }
            },
            None => {
                self.access_lists.push((tx_id, access_list));
                proof {
                    let l2 = self.spec_lists();
                    assert(l2 == l1.push((tx_id, access_list)));
                    assert forall|x: int, y: int| 0 <= x < l2.len() && 0 <= y < l2.len() && x != y
                        implies #[trigger] l2[x].0 != #[trigger] l2[y].0 by {
                        if x < l1.len() && y < l1.len() {
                            assert(l1[x].0 != l1[y].0);
                        } else if x < l1.len() {
                            assert(l1[x].0 != tx_id);
                        } else {
                            assert(l1[y].0 != tx_id);
                        }
                    }
                    self.lemma_list_at(l1.len() as int);
                    assert forall|x: TxId| x != tx_id implies #[trigger] self.registered(x) == old(self).registered(x)
                        && (old(self).registered(x) ==> self.list_of(x) == old(self).list_of(x)) by {
                        if old(self).registered(x) {
                            let j = choose|j: int| 0 <= j < old(self).spec_lists().len() && #[trigger] old(self).spec_lists()[j].0 == x;
                            old(self).lemma_list_at(j);
                            assert(l2[j] == l1[j]);
                            self.lemma_list_at(j);
                        }
                        if self.registered(x) {
                            let j = choose|j: int| 0 <= j < l2.len() && #[trigger] l2[j].0 == x;
                            if j < l1.len() {
                                assert(l1[j] == l2[j]);
                                assert(old(self).spec_lists()[j].0 == x);
                            }
                        }
                    }
                    assert forall|x: TxId| x != tx_id && old(self).registered(x) implies #[trigger] self.list_of(x) == old(self).list_of(x) by {
                        assert(self.registered(x) == old(self).registered(x));
                    }
                }
            },
        }
        proof {
            assert(self.spec_pairs() == pairs_done);
            self.spec_pairs().unique_seq_to_set();
            old(self).spec_pairs().unique_seq_to_set();
            let np = new_pairs(lists, tx_id, access_list);
            assert forall|a: TxId, b: TxId| a != tx_id && b != tx_id implies
                (#[trigger] self.spec_conflicts().contains(pair_of(a, b)) <==> old(self).spec_conflicts().contains(pair_of(a, b))) by {
                if np.contains(pair_of(a, b)) {
                    let k = choose|k: int| 0 <= k < lists.len() && lists_conflict(access_list, #[trigger] lists[k].1)
                        && pair_of(a, b) == pair_of(tx_id, lists[k].0);
                }
            }
            if !old(self).registered(tx_id) {
                assert forall|o: TxId| #[trigger] old(self).registered(o) implies
                    (self.spec_conflicts().contains(pair_of(tx_id, o)) <==> lists_conflict(access_list, old(self).list_of(o))) by {
                    let io = choose|io: int| 0 <= io < lists.len() && #[trigger] lists[io].0 == o;
                    old(self).lemma_list_at(io);
                    assert(o != tx_id);
                    if old(self).spec_conflicts().contains(pair_of(tx_id, o)) {
                        let z = choose|z: int| 0 <= z < old(self).spec_pairs().len() && old(self).spec_pairs()[z] == pair_of(tx_id, o);
                        assert(old(self).registered(old(self).spec_pairs()[z].0) && old(self).registered(old(self).spec_pairs()[z].1));
                    }
                    if np.contains(pair_of(tx_id, o)) {
                        let k = choose|k: int| 0 <= k < lists.len() && lists_conflict(access_list, #[trigger] lists[k].1)
                            && pair_of(tx_id, o) == pair_of(tx_id, lists[k].0);
                        assert(lists[k].0 == o);
                        if k != io {
                            assert(old(self).spec_lists()[k].0 != old(self).spec_lists()[io].0);
                        }
                    }
                    if lists_conflict(access_list, old(self).list_of(o)) {
                        assert(lists_conflict(access_list, lists[io].1));
                        assert(np.contains(pair_of(tx_id, lists[io].0)));
                    }
                }
            }
            assert forall|j: int| 0 <= j < self.spec_pairs().len() implies
                self.registered((#[trigger] self.spec_pairs()[j]).0) && self.registered(self.spec_pairs()[j].1) by {
                let q = self.spec_pairs()[j];
                assert(pairs_done[j] == q);
                if q.0 != tx_id { assert(old(self).registered(q.0)); }
                if q.1 != tx_id { assert(old(self).registered(q.1)); }
            }
        }
    }
}

/// Conflict between access lists is symmetric: `a` conflicts with `b` exactly
/// when `b` conflicts with `a`.
pub proof fn lemma_conflict_symmetric(a: AccessList, b: AccessList)
    ensures
        lists_conflict(a, b) == lists_conflict(b, a),
{
    assert(meets(a.writes@, b.writes@) ==> meets(b.writes@, a.writes@)) by {
        if meets(a.writes@, b.writes@) {
            let (i, j) = choose|i: int, j: int| 0 <= i < a.writes@.len() && 0 <= j < b.writes@.len() && #[trigger] a.writes@[i] == #[trigger] b.writes@[j];
            assert(b.writes@[j] == a.writes@[i]);
        }
    }
    assert(meets(b.writes@, a.writes@) ==> meets(a.writes@, b.writes@)) by {
        if meets(b.writes@, a.writes@) {
            let (i, j) = choose|i: int, j: int| 0 <= i < b.writes@.len() && 0 <= j < a.writes@.len() && #[trigger] b.writes@[i] == #[trigger] a.writes@[j];
            assert(a.writes@[j] == b.writes@[i]);
        }
    }
    assert(meets(a.writes@, b.reads@) == meets(b.reads@, a.writes@)) by {
        if meets(a.writes@, b.reads@) {
            let (i, j) = choose|i: int, j: int| 0 <= i < a.writes@.len() && 0 <= j < b.reads@.len() && #[trigger] a.writes@[i] == #[trigger] b.reads@[j];
            assert(b.reads@[j] == a.writes@[i]);
        }
        if meets(b.reads@, a.writes@) {
            let (i, j) = choose|i: int, j: int| 0 <= i < b.reads@.len() && 0 <= j < a.writes@.len() && #[trigger] b.reads@[i] == #[trigger] a.writes@[j];
            assert(a.writes@[j] == b.reads@[i]);
        }
    }
    assert(meets(a.reads@, b.writes@) == meets(b.writes@, a.reads@)) by {
        if meets(a.reads@, b.writes@) {
            let (i, j) = choose|i: int, j: int| 0 <= i < a.reads@.len() && 0 <= j < b.writes@.len() && #[trigger] a.reads@[i] == #[trigger] b.writes@[j];
            assert(b.writes@[j] == a.reads@[i]);
        }
        if meets(b.writes@, a.reads@) {
            let (i, j) = choose|i: int, j: int| 0 <= i < b.writes@.len() && 0 <= j < a.reads@.len() && #[trigger] b.writes@[i] == #[trigger] a.reads@[j];
            assert(a.reads@[j] == b.writes@[i]);
        }
    }
}

/// The greedy selection is conflict-free and drawn from the candidates: no two
/// selected ids form a conflict pair, and every selected id is a candidate.
pub proof fn lemma_selection_conflict_free(ids: Seq<TxId>, c: Set<(TxId, TxId)>)
    ensures
        ({
            let sel = select_non_conflicting(ids, c);
            &&& sel.len() <= ids.len()
            &&& forall|i: int, j: int| 0 <= i < j < sel.len() ==> !c.contains(pair_of(#[trigger] sel[i], #[trigger] sel[j]))
            &&& forall|i: int| 0 <= i < sel.len() ==> ids.contains(#[trigger] sel[i])
        }),
    decreases ids.len(),
{
    if ids.len() > 0 {
        let prev = select_non_conflicting(ids.drop_last(), c);
        lemma_selection_conflict_free(ids.drop_last(), c);
        let sel = select_non_conflicting(ids, c);
        assert forall|i: int| 0 <= i < sel.len() implies ids.contains(#[trigger] sel[i]) by {
            if i < prev.len() {
                assert(sel[i] == prev[i]);
                assert(ids.drop_last().contains(prev[i]));
                let k = choose|k: int| 0 <= k < ids.drop_last().len() && ids.drop_last()[k] == prev[i];
                assert(ids[k] == prev[i]);
            } else {
                assert(sel[i] == ids.last());
                assert(ids[ids.len() - 1] == ids.last());
            }
        }
        assert forall|i: int, j: int| 0 <= i < j < sel.len() implies !c.contains(pair_of(#[trigger] sel[i], #[trigger] sel[j])) by {
            if j < prev.len() {
                assert(sel[i] == prev[i] && sel[j] == prev[j]);
            } else {
                assert(sel[i] == prev[i]);
                assert(sel[j] == ids.last());
            }
        }
    }
}

/// `sub` is a subsequence of `s`: its elements appear in `s` in the same order.
pub open spec fn is_subsequence(sub: Seq<TxId>, s: Seq<TxId>) -> bool {
    exists|m: Seq<int>| {
        &&& m.len() == sub.len()
        &&& forall|i: int| 0 <= i < m.len() ==> 0 <= #[trigger] m[i] < s.len() && s[m[i]] == sub[i]
        &&& forall|i: int, j: int| 0 <= i < j < m.len() ==> #[trigger] m[i] < #[trigger] m[j]
    }
}

/// The greedy selection is a subsequence of the candidates, and it is maximal:
/// every candidate left out conflicts with a selected id.
pub proof fn lemma_selection_maximal(ids: Seq<TxId>, c: Set<(TxId, TxId)>)
    ensures
        is_subsequence(select_non_conflicting(ids, c), ids),
        forall|x: TxId| ids.contains(x) && !select_non_conflicting(ids, c).contains(x) ==>
            exists|j: int| 0 <= j < select_non_conflicting(ids, c).len()
                && c.contains(pair_of(#[trigger] select_non_conflicting(ids, c)[j], x)),
    decreases ids.len(),
{
    let sel = select_non_conflicting(ids, c);
    if ids.len() == 0 {
        let m = Seq::<int>::empty();
        assert(m.len() == sel.len());
    } else {
        let d = ids.drop_last();
        let prev = select_non_conflicting(d, c);
        lemma_selection_maximal(d, c);
        let m0 = choose|m: Seq<int>| {
            &&& m.len() == prev.len()
            &&& forall|i: int| 0 <= i < m.len() ==> 0 <= #[trigger] m[i] < d.len() && d[m[i]] == prev[i]
            &&& forall|i: int, j: int| 0 <= i < j < m.len() ==> #[trigger] m[i] < #[trigger] m[j]
        };
        let pushed = !(exists|j: int| 0 <= j < prev.len() && c.contains(pair_of(#[trigger] prev[j], ids.last())));
        let m = if pushed { m0.push(ids.len() - 1) } else { m0 };
        assert forall|i: int| 0 <= i < m.len() implies 0 <= #[trigger] m[i] < ids.len() && ids[m[i]] == sel[i] by {
            if i < m0.len() {
                assert(m[i] == m0[i]);
                assert(ids[m0[i]] == d[m0[i]]);
            }
        }
        assert forall|i: int, j: int| 0 <= i < j < m.len() implies #[trigger] m[i] < #[trigger] m[j] by {
            if j < m0.len() {
                assert(m[i] == m0[i] && m[j] == m0[j]);
            } else {
                assert(m[i] == m0[i]);
            }
        }
        assert(m.len() == sel.len());
        assert(is_subsequence(sel, ids));
        assert forall|x: TxId| ids.contains(x) && !sel.contains(x) implies
            exists|j: int| 0 <= j < sel.len() && c.contains(pair_of(#[trigger] sel[j], x)) by {
            let k = choose|k: int| 0 <= k < ids.len() && ids[k] == x;
            assert forall|q: int| 0 <= q < prev.len() implies sel[q] == prev[q] by {}
            if k < ids.len() - 1 {
                assert(d[k] == x);
                assert(d.contains(x));
                if prev.contains(x) {
                    let q = choose|q: int| 0 <= q < prev.len() && prev[q] == x;
                    assert(sel[q] == x);
                }
                let j = choose|j: int| 0 <= j < prev.len() && c.contains(pair_of(#[trigger] prev[j], x));
                assert(sel[j] == prev[j]);
            } else {
                if pushed {
                    assert(sel[sel.len() - 1] == x);
                } else {
                    let j = choose|j: int| 0 <= j < prev.len() && c.contains(pair_of(#[trigger] prev[j], ids.last()));
                    assert(sel[j] == prev[j]);
                }
            }
        }
    }
}

impl Default for AccessList {
    fn default() -> (a: Self)
        ensures
            a.reads@ == Seq::<StorageSlot>::empty(),
            a.writes@ == Seq::<StorageSlot>::empty(),
            a.contracts_touched@ == Seq::<Address>::empty(),
    {
        AccessList::new()
    }
}

impl Default for ConflictTracker {
    fn default() -> (t: Self)
        ensures
            t.wf(),
            t.spec_lists() == Seq::<(TxId, AccessList)>::empty(),
            t.spec_pairs() == Seq::<(TxId, TxId)>::empty(),
    {
        ConflictTracker::new()
    }
}

} // verus!
