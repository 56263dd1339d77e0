use vstd::prelude::*;
use crate::tx::{Tx, TxId};

verus! {

/// Sum of `f` over the transactions of a sequence.
pub open spec fn tx_sum(s: Seq<Tx>, f: spec_fn(Tx) -> int) -> int
    decreases s.len(),
{
    if s.len() == 0 {
        0
    } else {
        f(s[0]) + tx_sum(s.drop_first(), f)
    }
}

/// Gas of a transaction.
pub open spec fn gas_fn() -> spec_fn(Tx) -> int {
    |t: Tx| t.gas_limit as int
}

/// Value of a transaction.
pub open spec fn value_fn() -> spec_fn(Tx) -> int {
    |t: Tx| t.spec_value()
}

/// Value of a transaction at a base fee.
pub open spec fn value_at_fn(base_fee: u64) -> spec_fn(Tx) -> int {
    |t: Tx| t.spec_value_at(base_fee)
}

/// One for every transaction.
pub open spec fn one_fn() -> spec_fn(Tx) -> int {
    |t: Tx| 1
}

/// Total gas of a sequence of transactions.
pub open spec fn sum_gas(s: Seq<Tx>) -> int {
    tx_sum(s, gas_fn())
}

/// Total value of a sequence of transactions.
pub open spec fn sum_value(s: Seq<Tx>) -> int {
    tx_sum(s, value_fn())
}

/// Total value of a sequence of transactions at a base fee.
pub open spec fn sum_value_at(s: Seq<Tx>, base_fee: u64) -> int {
    tx_sum(s, value_at_fn(base_fee))
}

/// Index of the first transaction with an id, or -1.
pub open spec fn first_id_index(s: Seq<Tx>, id: TxId) -> int
    decreases s.len(),
{
    if s.len() == 0 {
        -1
    } else if s[0].id == id {
        0
    } else {
        let r = first_id_index(s.drop_first(), id);
        if r < 0 { -1 } else { r + 1 }
    }
}

/// Some transaction of the sequence has the id.
pub open spec fn has_id(s: Seq<Tx>, id: TxId) -> bool {
    exists|j: int| 0 <= j < s.len() && #[trigger] s[j].id == id
}

/// No two transactions of the sequence share an id.
pub open spec fn ids_distinct(s: Seq<Tx>) -> bool {
    forall|i: int, j: int| 0 <= i < s.len() && 0 <= j < s.len() && i != j ==> #[trigger] s[i].id != #[trigger] s[j].id
}

pub proof fn lemma_sum_push(s: Seq<Tx>, x: Tx, f: spec_fn(Tx) -> int)
    ensures
        tx_sum(s.push(x), f) == tx_sum(s, f) + f(x),
    decreases s.len(),
{
    if s.len() == 0 {
        assert(s.push(x).drop_first() =~= s);
    } else {
        lemma_sum_push(s.drop_first(), x, f);
        assert(s.push(x).drop_first() =~= s.drop_first().push(x));
    }
}

pub proof fn lemma_sum_remove(s: Seq<Tx>, k: int, f: spec_fn(Tx) -> int)
    requires
        0 <= k < s.len(),
    ensures
        tx_sum(s.remove(k), f) == tx_sum(s, f) - f(s[k]),
    decreases s.len(),
{
    if k == 0 {
        assert(s.remove(0) =~= s.drop_first());
    } else {
        lemma_sum_remove(s.drop_first(), k - 1, f);
        assert(s.remove(k).drop_first() =~= s.drop_first().remove(k - 1));
    }
}

pub proof fn lemma_sum_concat(a: Seq<Tx>, b: Seq<Tx>, f: spec_fn(Tx) -> int)
    ensures
        tx_sum(a + b, f) == tx_sum(a, f) + tx_sum(b, f),
    decreases a.len(),
{
    if a.len() == 0 {
        assert(a + b =~= b);
    } else {
        lemma_sum_concat(a.drop_first(), b, f);
        assert((a + b).drop_first() =~= a.drop_first() + b);
    }
}

/// A sum of non-negative terms bounds each term.
pub proof fn lemma_sum_nonneg(s: Seq<Tx>, f: spec_fn(Tx) -> int)
    requires
        forall|t: Tx| #[trigger] f(t) >= 0,
    ensures
        tx_sum(s, f) >= 0,
        forall|k: int| 0 <= k < s.len() ==> f(#[trigger] s[k]) <= tx_sum(s, f),
    decreases s.len(),
{
    if s.len() > 0 {
        lemma_sum_nonneg(s.drop_first(), f);
        assert forall|k: int| 0 <= k < s.len() implies f(#[trigger] s[k]) <= tx_sum(s, f) by {
            if k > 0 {
                assert(s[k] == s.drop_first()[k - 1]);
            }
        }
    }
}

pub proof fn lemma_first_id_index(s: Seq<Tx>, id: TxId)
    ensures
        -1 <= first_id_index(s, id) < s.len(),
        first_id_index(s, id) >= 0 ==> s[first_id_index(s, id)].id == id,
        first_id_index(s, id) >= 0 ==> forall|j: int| 0 <= j < first_id_index(s, id) ==> s[j].id != id,
        first_id_index(s, id) < 0 <==> !has_id(s, id),
    decreases s.len(),
{
    if s.len() > 0 {
        lemma_first_id_index(s.drop_first(), id);
        let r = first_id_index(s.drop_first(), id);
        if s[0].id != id {
            if r >= 0 {
                assert forall|j: int| 0 <= j < r + 1 implies s[j].id != id by {
                    if j > 0 {
                        assert(s[j] == s.drop_first()[j - 1]);
                    }
                }
                assert(s[r + 1] == s.drop_first()[r]);
            } else {
                if has_id(s, id) {
                    let j = choose|j: int| 0 <= j < s.len() && #[trigger] s[j].id == id;
                    assert(s.drop_first()[j - 1].id == id);
                }
            }
        }
    }
}

/// Characterizes the first index with an id.
pub proof fn lemma_first_id_index_is(s: Seq<Tx>, id: TxId, k: int)
    requires
        0 <= k < s.len(),
        s[k].id == id,
        forall|j: int| 0 <= j < k ==> s[j].id != id,
    ensures
        first_id_index(s, id) == k,
    decreases s.len(),
{
    if k > 0 {
        assert forall|j: int| 0 <= j < k - 1 implies s.drop_first()[j].id != id by {
            assert(s.drop_first()[j] == s[j + 1]);
        }
        lemma_first_id_index_is(s.drop_first(), id, k - 1);
    }
}

/// The transactions of `s` whose ids are not in `ids`, in order.
pub open spec fn remove_ids(s: Seq<Tx>, ids: Set<TxId>) -> Seq<Tx>
    decreases s.len(),
{
    if s.len() == 0 {
        s
    } else if ids.contains(s[0].id) {
        remove_ids(s.drop_first(), ids)
    } else {
        seq![s[0]] + remove_ids(s.drop_first(), ids)
    }
}

/// Removing ids that no transaction of `s` carries changes nothing.
pub proof fn lemma_remove_ids_absent(s: Seq<Tx>, ids: Set<TxId>, x: TxId)
    requires
        !has_id(s, x),
    ensures
        remove_ids(s, ids.insert(x)) == remove_ids(s, ids),
    decreases s.len(),
{
    if s.len() > 0 {
        assert(s[0].id != x);
        assert(!has_id(s.drop_first(), x)) by {
            if has_id(s.drop_first(), x) {
                let j = choose|j: int| 0 <= j < s.drop_first().len() && #[trigger] s.drop_first()[j].id == x;
                assert(s[j + 1].id == x);
            }
        }
        lemma_remove_ids_absent(s.drop_first(), ids, x);
    }
}

/// What `remove_ids` keeps comes from `s`, and keeps ids distinct.
pub proof fn lemma_remove_ids_sub(s: Seq<Tx>, ids: Set<TxId>)
    ensures
        remove_ids(s, ids).len() <= s.len(),
        forall|i: int| 0 <= i < remove_ids(s, ids).len() ==> s.contains(#[trigger] remove_ids(s, ids)[i]),
        forall|i: int| 0 <= i < remove_ids(s, ids).len() ==> !ids.contains(#[trigger] remove_ids(s, ids)[i].id),
        ids_distinct(s) ==> ids_distinct(remove_ids(s, ids)),
        forall|x: TxId| #[trigger] has_id(remove_ids(s, ids), x) ==> has_id(s, x),
    decreases s.len(),
{
    if s.len() > 0 {
        let t = s.drop_first();
        lemma_remove_ids_sub(t, ids);
        let r = remove_ids(s, ids);
        let rt = remove_ids(t, ids);
        assert forall|u: Tx| t.contains(u) implies s.contains(u) by {
            let j = choose|j: int| 0 <= j < t.len() && t[j] == u;
            assert(s[j + 1] == u);
        }
        assert forall|x: TxId| has_id(t, x) implies has_id(s, x) by {
            let j = choose|j: int| 0 <= j < t.len() && #[trigger] t[j].id == x;
            assert(s[j + 1].id == x);
        }
        if ids_distinct(s) {
            assert(ids_distinct(t)) by {
                assert forall|i: int, j: int| 0 <= i < t.len() && 0 <= j < t.len() && i != j implies #[trigger] t[i].id != #[trigger] t[j].id by {
                    assert(t[i] == s[i + 1] && t[j] == s[j + 1]);
                }
            }
        }
        if ids.contains(s[0].id) {
            assert(r == rt);
            assert forall|i: int| 0 <= i < r.len() implies s.contains(#[trigger] r[i]) by {
                assert(rt[i] == r[i]);
            }
            assert forall|x: TxId| #[trigger] has_id(r, x) implies has_id(s, x) by {
                assert(has_id(rt, x));
            }
        } else {
            assert(r == seq![s[0]] + rt);
            assert forall|i: int| 0 <= i < r.len() implies s.contains(#[trigger] r[i]) && !ids.contains(r[i].id) by {
                if i == 0 {
                    assert(r[0] == s[0]);
                } else {
                    assert(r[i] == rt[i - 1]);
                }
            }
            assert forall|x: TxId| #[trigger] has_id(r, x) implies has_id(s, x) by {
                let i = choose|i: int| 0 <= i < r.len() && #[trigger] r[i].id == x;
                if i == 0 {
                    assert(s[0].id == x);
                } else {
                    assert(r[i] == rt[i - 1]);
                    assert(has_id(rt, x));
                }
            }
            if ids_distinct(s) {
                assert forall|i: int, j: int| 0 <= i < r.len() && 0 <= j < r.len() && i != j implies #[trigger] r[i].id != #[trigger] r[j].id by {
                    if i > 0 && j > 0 {
                        assert(r[i] == rt[i - 1] && r[j] == rt[j - 1]);
                    } else if i == 0 {
                        assert(r[j] == rt[j - 1]);
                        assert(t.contains(rt[j - 1]));
                        let jj = choose|jj: int| 0 <= jj < t.len() && t[jj] == rt[j - 1];
                        assert(t[jj] == s[jj + 1]);
                    } else {
                        assert(r[i] == rt[i - 1]);
                        assert(t.contains(rt[i - 1]));
                        let ii = choose|ii: int| 0 <= ii < t.len() && t[ii] == rt[i - 1];
                        assert(t[ii] == s[ii + 1]);
                    }
                }
            }
        }
    }
}

/// Removing, from what `remove_ids(s, ids)` kept, the first transaction with the id
/// of `s[k]` removes exactly `s[k]` and gives `remove_ids(s, ids + {s[k].id})`.
pub proof fn lemma_remove_ids_step(s: Seq<Tx>, ids: Set<TxId>, k: int)
    requires
        ids_distinct(s),
        0 <= k < s.len(),
        !ids.contains(s[k].id),
    ensures
        ({
            let c = remove_ids(s, ids);
            let m = first_id_index(c, s[k].id);
            &&& 0 <= m < c.len()
            &&& c[m] == s[k]
            &&& c.remove(m) == remove_ids(s, ids.insert(s[k].id))
        }),
    decreases s.len(),
{
    let x = s[k].id;
    let t = s.drop_first();
    let c = remove_ids(s, ids);
    let ct = remove_ids(t, ids);
    if k == 0 {
        assert(c == seq![s[0]] + ct);
        assert(c[0].id == x);
        lemma_first_id_index_is(c, x, 0);
        assert(c.remove(0) =~= ct);
        assert(!has_id(t, x)) by {
            if has_id(t, x) {
                let j = choose|j: int| 0 <= j < t.len() && #[trigger] t[j].id == x;
                assert(s[j + 1].id == s[0].id);
            }
        }
        lemma_remove_ids_absent(t, ids, x);
        assert(ids.insert(x).contains(s[0].id));
    } else {
        assert(t[k - 1] == s[k]);
        assert(ids_distinct(t)) by {
            assert forall|i: int, j: int| 0 <= i < t.len() && 0 <= j < t.len() && i != j implies #[trigger] t[i].id != #[trigger] t[j].id by {
                assert(t[i] == s[i + 1] && t[j] == s[j + 1]);
            }
        }
        lemma_remove_ids_step(t, ids, k - 1);
        let mt = first_id_index(ct, x);
        assert(s[0].id != x);
        if ids.contains(s[0].id) {
            assert(c == ct);
            assert(ids.insert(x).contains(s[0].id));
            assert(remove_ids(s, ids.insert(x)) == remove_ids(t, ids.insert(x)));
        } else {
            assert(c == seq![s[0]] + ct);
            assert(!ids.insert(x).contains(s[0].id));
            assert(remove_ids(s, ids.insert(x)) == seq![s[0]] + remove_ids(t, ids.insert(x)));
            assert(c[mt + 1] == ct[mt]);
            assert forall|j: int| 0 <= j < mt + 1 implies c[j].id != x by {
                if j > 0 {
                    assert(c[j] == ct[j - 1]);
                    lemma_first_id_index(ct, x);
                }
            }
            lemma_first_id_index_is(c, x, mt + 1);
            assert(c.remove(mt + 1) =~= seq![s[0]] + ct.remove(mt));
        }
    }
}

/// Pointwise smaller terms give a smaller sum.
pub proof fn lemma_sum_le(s: Seq<Tx>, f: spec_fn(Tx) -> int, g: spec_fn(Tx) -> int)
    requires
        forall|t: Tx| #[trigger] f(t) <= g(t),
    ensures
        tx_sum(s, f) <= tx_sum(s, g),
    decreases s.len(),
{
    if s.len() > 0 {
        lemma_sum_le(s.drop_first(), f, g);
        assert(f(s[0]) <= g(s[0]));
    }
}

/// The transactions at the first `k` positions listed in `p`.
pub open spec fn picked(c: Seq<Tx>, p: Seq<usize>, k: int) -> Seq<Tx> {
    p.take(k).map_values(|i: usize| c[i as int])
}

/// The set of ids carried by a sequence of transactions.
pub open spec fn id_set(s: Seq<Tx>) -> Set<TxId> {
    Set::new(|id: TxId| has_id(s, id))
}

/// `p` lists distinct positions of `c`.
pub open spec fn distinct_positions(c: Seq<Tx>, p: Seq<usize>) -> bool {
    &&& forall|a: int| 0 <= a < p.len() ==> #[trigger] p[a] < c.len()
    &&& forall|a: int, b: int| 0 <= a < b < p.len() ==> #[trigger] p[a] != #[trigger] p[b]
}

/// Removing the transactions picked at the first `j` positions of `p`, one id at a time.
pub proof fn lemma_picked_removal(c: Seq<Tx>, p: Seq<usize>, j: int, f: spec_fn(Tx) -> int)
    requires
        ids_distinct(c),
        distinct_positions(c, p),
        0 <= j <= p.len(),
    ensures
        tx_sum(remove_ids(c, id_set(picked(c, p, j))), f) == tx_sum(c, f) - tx_sum(picked(c, p, j), f),
        ids_distinct(remove_ids(c, id_set(picked(c, p, j)))),
        j < p.len() ==> !id_set(picked(c, p, j)).contains(c[p[j] as int].id),
        j < p.len() ==> picked(c, p, j + 1) == picked(c, p, j).push(c[p[j] as int]),
        j < p.len() ==> id_set(picked(c, p, j + 1)) == id_set(picked(c, p, j)).insert(c[p[j] as int].id),
        j < p.len() ==> ({
            let r = remove_ids(c, id_set(picked(c, p, j)));
            let m = first_id_index(r, c[p[j] as int].id);
            &&& 0 <= m < r.len()
            &&& r[m] == c[p[j] as int]
            &&& r.remove(m) == remove_ids(c, id_set(picked(c, p, j + 1)))
        }),
    decreases j,
{
    let ev = picked(c, p, j);
    if j < p.len() {
        let x = c[p[j] as int];
        assert(picked(c, p, j + 1) =~= ev.push(x));
        assert(id_set(ev.push(x)) =~= id_set(ev).insert(x.id)) by {
            assert forall|id: TxId| has_id(ev.push(x), id) <==> (has_id(ev, id) || x.id == id) by {
                if has_id(ev.push(x), id) {
                    let i = choose|i: int| 0 <= i < ev.push(x).len() && #[trigger] ev.push(x)[i].id == id;
                    if i < ev.len() {
                        assert(ev[i].id == id);
                    }
                }
                if has_id(ev, id) {
                    let i = choose|i: int| 0 <= i < ev.len() && #[trigger] ev[i].id == id;
                    assert(ev.push(x)[i].id == id);
                }
                if x.id == id {
                    assert(ev.push(x)[ev.len() as int].id == id);
                }
            }
        }
        assert(!id_set(ev).contains(x.id)) by {
            if has_id(ev, x.id) {
                let i = choose|i: int| 0 <= i < ev.len() && #[trigger] ev[i].id == x.id;
                assert(ev[i] == c[p[i] as int]);
                assert(p[i] != p[j]);
            }
        }
        lemma_remove_ids_step(c, id_set(ev), p[j] as int);
    }
    if j == 0 {
        assert(picked(c, p, 0) =~= Seq::<Tx>::empty());
        assert(remove_ids(c, id_set(picked(c, p, 0))) == remove_ids(c, Set::<TxId>::empty())) by {
            assert(id_set(picked(c, p, 0)) =~= Set::<TxId>::empty());
        }
        lemma_remove_ids_none(c);
        lemma_remove_ids_sub(c, Set::<TxId>::empty());
    } else {
        lemma_picked_removal(c, p, j - 1, f);
        let prev = remove_ids(c, id_set(picked(c, p, j - 1)));
        let y = c[p[j - 1] as int];
        let m = first_id_index(prev, y.id);
        lemma_sum_remove(prev, m, f);
        lemma_sum_push(picked(c, p, j - 1), y, f);
        lemma_remove_ids_sub(c, id_set(ev));
    }
}

/// Removing no ids keeps the sequence.
pub proof fn lemma_remove_ids_none(s: Seq<Tx>)
    ensures
        remove_ids(s, Set::<TxId>::empty()) == s,
    decreases s.len(),
{
    if s.len() > 0 {
        lemma_remove_ids_none(s.drop_first());
        assert(seq![s[0]] + s.drop_first() =~= s);
    }
}

/// Whether some transaction of the vector has the id.
pub fn contains_id(txs: &Vec<Tx>, id: TxId) -> (b: bool)
    ensures
        b == has_id(txs@, id),
{
    let n = txs.len();
    let mut i: usize = 0;
    while i < n
        invariant
            n == txs@.len(),
            i <= n,
            forall|j: int| 0 <= j < i ==> txs@[j].id != id,
        decreases n - i,
    {
        if txs[i].id == id {
            return true;
        }
        i = i + 1;
    }
    proof {
        if has_id(txs@, id) {
            let j = choose|j: int| 0 <= j < txs@.len() && #[trigger] txs@[j].id == id;
            assert(txs@[j].id != id);
        }
    }
    false
}

/// Summing one per transaction counts them.
pub proof fn lemma_sum_one(s: Seq<Tx>)
    ensures
        tx_sum(s, one_fn()) == s.len(),
    decreases s.len(),
{
    if s.len() > 0 {
        lemma_sum_one(s.drop_first());
    }
}

} // verus!
