use vstd::prelude::*;

verus! {

/// Index `i` goes before index `j` in a stable descending order of `keys`:
/// a larger key first, and among equal keys the smaller index first.
pub open spec fn desc_before(keys: Seq<u128>, i: int, j: int) -> bool {
    keys[i] > keys[j] || (keys[i] == keys[j] && i < j)
}

/// `p` lists the indices `0..n` in the stable descending order of `keys`.
/// Exactly one sequence meets this (`lemma_desc_order_unique`), so it fixes the
/// result of a stable sort.
pub open spec fn is_desc_order(keys: Seq<u128>, p: Seq<usize>) -> bool {
    &&& p.len() == keys.len()
    &&& forall|a: int| 0 <= a < p.len() ==> #[trigger] p[a] < keys.len()
    &&& forall|k: int| 0 <= k < keys.len() ==> #[trigger] p.contains(k as usize)
    &&& forall|a: int, b: int| 0 <= a < b < p.len() ==> desc_before(keys, #[trigger] p[a] as int, #[trigger] p[b] as int)
}

/// Two stable descending orders of the same keys agree at every position up to `a`.
proof fn lemma_desc_order_agree(keys: Seq<u128>, p: Seq<usize>, q: Seq<usize>, a: int)
    requires
        is_desc_order(keys, p),
        is_desc_order(keys, q),
        0 <= a < p.len(),
    ensures
        p[a] == q[a],
    decreases a,
{
    assert forall|j: int| 0 <= j < a implies p[j] == q[j] by {
        lemma_desc_order_agree(keys, p, q, j);
    }
    if p[a] != q[a] {
        assert(q.contains(p[a] as int as usize));
        let b = choose|b: int| 0 <= b < q.len() && q[b] == p[a];
        assert(p.contains(q[a] as int as usize));
        let c = choose|c: int| 0 <= c < p.len() && p[c] == q[a];
        if b < a {
            assert(q[b] == p[b]);
            assert(desc_before(keys, p[b] as int, p[a] as int));
        } else if c < a {
            assert(p[c] == q[c]);
            assert(desc_before(keys, q[c] as int, q[a] as int));
        } else {
            assert(desc_before(keys, q[a] as int, q[b] as int));
            assert(desc_before(keys, p[a] as int, p[c] as int));
        }
    }
}

/// A stable sort's result is unique: two sequences that both list the indices
/// in the stable descending order of the same keys are equal.
pub proof fn lemma_desc_order_unique(keys: Seq<u128>, p: Seq<usize>, q: Seq<usize>)
    requires
        is_desc_order(keys, p),
        is_desc_order(keys, q),
    ensures
        p == q,
{
    assert forall|a: int| 0 <= a < p.len() implies p[a] == q[a] by {
        lemma_desc_order_agree(keys, p, q, a);
    }
    assert(p =~= q);
}

/// Stable sort of the indices of `keys`, largest key first.
pub fn sort_desc(keys: &Vec<u128>) -> (p: Vec<usize>)
    ensures
        is_desc_order(keys@, p@),
{
    let n = keys.len();
    let mut p: Vec<usize> = Vec::new();
    let mut i: usize = 0;
    while i < n
        invariant
            n == keys@.len(),
            i <= n,
            p@.len() == i,
            forall|a: int| 0 <= a < p@.len() ==> #[trigger] p@[a] < i,
            forall|k: int| 0 <= k < i ==> #[trigger] p@.contains(k as usize),
            forall|a: int, b: int| 0 <= a < b < p@.len() ==> desc_before(keys@, #[trigger] p@[a] as int, #[trigger] p@[b] as int),
        decreases n - i,
    {
        let ki = keys[i];
        let mut pos: usize = 0;
        while pos < p.len() && keys[p[pos]] >= ki
            invariant
                n == keys@.len(),
                i < n,
                ki == keys@[i as int],
                pos <= p@.len(),
                forall|a: int| 0 <= a < p@.len() ==> #[trigger] p@[a] < i,
                forall|a: int| 0 <= a < pos ==> keys@[#[trigger] p@[a] as int] >= ki,
            decreases p@.len() - pos,
        {
            pos = pos + 1;
        }
        let ghost old_p = p@;
        p.insert(pos, i);
        proof {
            assert(p@ == old_p.insert(pos as int, i));
            assert forall|a: int, b: int| 0 <= a < b < p@.len() implies desc_before(keys@, #[trigger] p@[a] as int, #[trigger] p@[b] as int) by {
                if b < pos {
                    assert(p@[a] == old_p[a] && p@[b] == old_p[b]);
                } else if b == pos {
                    assert(p@[a] == old_p[a]);
                    assert(keys@[old_p[a] as int] >= ki);
                } else if a < pos {
                    assert(p@[a] == old_p[a] && p@[b] == old_p[b - 1]);
                } else if a == pos {
                    assert(p@[b] == old_p[b - 1]);
                    // the scan stopped at pos: keys[old_p[pos]] < ki, and order puts old_p[b-1] after
                    if b - 1 > pos {
                        assert(desc_before(keys@, old_p[pos as int] as int, old_p[b - 1] as int));
                    }
                    assert(keys@[old_p[pos as int] as int] < ki);
                } else {
                    assert(p@[a] == old_p[a - 1] && p@[b] == old_p[b - 1]);
                }
            }
            assert forall|k: int| 0 <= k < i + 1 implies #[trigger] p@.contains(k as usize) by {
                if k == i {
                    assert(p@[pos as int] == i);
                } else {
                    assert(old_p.contains(k as usize));
                    let a = choose|a: int| 0 <= a < old_p.len() && old_p[a] == k as usize;
                    if a < pos {
                        assert(p@[a] == k as usize);
                    } else {
                        assert(p@[a + 1] == k as usize);
                    }
                }
            }
        }
        i = i + 1;
    }
    p
}

/// Numerator of a value-per-gas ratio `(value, gas)`; a ratio over zero gas is 0.
pub open spec fn ratio_num(r: (u64, u64)) -> int {
    if r.1 == 0 { 0 } else { r.0 as int }
}

/// Denominator of a value-per-gas ratio `(value, gas)`.
pub open spec fn ratio_den(r: (u64, u64)) -> int {
    if r.1 == 0 { 1 } else { r.1 as int }
}

/// Ratio `a` is above ratio `b`.
pub open spec fn ratio_gt(a: (u64, u64), b: (u64, u64)) -> bool {
    ratio_num(a) * ratio_den(b) > ratio_num(b) * ratio_den(a)
}

/// Ratio `a` is equal to ratio `b`.
pub open spec fn ratio_eq(a: (u64, u64), b: (u64, u64)) -> bool {
    ratio_num(a) * ratio_den(b) == ratio_num(b) * ratio_den(a)
}

/// Index `i` goes before index `j` in a stable descending order of ratios.
pub open spec fn ratio_desc_before(r: Seq<(u64, u64)>, i: int, j: int) -> bool {
    ratio_gt(r[i], r[j]) || (ratio_eq(r[i], r[j]) && i < j)
}

/// `p` lists the indices `0..n` in the stable descending order of the ratios.
pub open spec fn is_ratio_desc_order(r: Seq<(u64, u64)>, p: Seq<usize>) -> bool {
    &&& p.len() == r.len()
    &&& forall|a: int| 0 <= a < p.len() ==> #[trigger] p[a] < r.len()
    &&& forall|k: int| 0 <= k < r.len() ==> #[trigger] p.contains(k as usize)
    &&& forall|a: int, b: int| 0 <= a < b < p.len() ==> ratio_desc_before(r, #[trigger] p[a] as int, #[trigger] p[b] as int)
}

/// Whether ratio `a` is at least ratio `b`.
pub fn ratio_at_least(a: (u64, u64), b: (u64, u64)) -> (r: bool)
    ensures
        r == !ratio_gt(b, a),
{
    let an: u128 = if a.1 == 0 { 0 } else { a.0 as u128 };
    let ad: u128 = if a.1 == 0 { 1 } else { a.1 as u128 };
    let bn: u128 = if b.1 == 0 { 0 } else { b.0 as u128 };
    let bd: u128 = if b.1 == 0 { 1 } else { b.1 as u128 };
    proof {
        vstd::arithmetic::mul::lemma_mul_upper_bound(an as int, u64::MAX as int, bd as int, u64::MAX as int);
        vstd::arithmetic::mul::lemma_mul_upper_bound(bn as int, u64::MAX as int, ad as int, u64::MAX as int);
        assert(u64::MAX as int * u64::MAX as int <= u128::MAX) by (nonlinear_arith);
    }
    an * bd >= bn * ad
}

/// Whether ratio `a` is above ratio `b`.
pub fn ratio_above(a: (u64, u64), b: (u64, u64)) -> (r: bool)
    ensures
        r == ratio_gt(a, b),
{
    !ratio_at_least(b, a)
}

proof fn lemma_ratio_gt_ge(a: (u64, u64), b: (u64, u64), c: (u64, u64))
    requires
        ratio_gt(a, b),
        !ratio_gt(c, b),
    ensures
        ratio_gt(a, c),
{
    let an = ratio_num(a);
    let ad = ratio_den(a);
    let bn = ratio_num(b);
    let bd = ratio_den(b);
    let cn = ratio_num(c);
    let cd = ratio_den(c);
    assert(an * cd > cn * ad) by (nonlinear_arith)
        requires
            an * bd > bn * ad,
            bn * cd >= cn * bd,
            ad > 0,
            bd > 0,
            cd > 0,
            an >= 0,
            bn >= 0,
            cn >= 0,
    {
        assert(an * bd * cd > bn * ad * cd);
        assert(bn * cd * ad >= cn * bd * ad);
        assert(an * cd * bd > cn * ad * bd);
    }
}

/// A ratio at least `b`, where `b` is above `c`, is above `c`.
pub proof fn lemma_ratio_ge_gt(a: (u64, u64), b: (u64, u64), c: (u64, u64))
    requires
        !ratio_gt(b, a),
        ratio_gt(b, c),
    ensures
        ratio_gt(a, c),
{
    let an = ratio_num(a);
    let ad = ratio_den(a);
    let bn = ratio_num(b);
    let bd = ratio_den(b);
    let cn = ratio_num(c);
    let cd = ratio_den(c);
    assert(an * cd > cn * ad) by (nonlinear_arith)
        requires
            an * bd >= bn * ad,
            bn * cd > cn * bd,
            ad > 0,
            bd > 0,
            cd > 0,
            an >= 0,
            bn >= 0,
            cn >= 0,
    {
        assert(an * bd * cd >= bn * ad * cd);
        assert(bn * cd * ad > cn * bd * ad);
        assert(an * cd * bd > cn * ad * bd);
    }
}

/// Stable sort of the indices of value-per-gas ratios, highest ratio first.
pub fn sort_ratio_desc(r: &Vec<(u64, u64)>) -> (p: Vec<usize>)
    ensures
        is_ratio_desc_order(r@, p@),
{
    let n = r.len();
    let mut p: Vec<usize> = Vec::new();
    let mut i: usize = 0;
    while i < n
        invariant
            n == r@.len(),
            i <= n,
            p@.len() == i,
            forall|a: int| 0 <= a < p@.len() ==> #[trigger] p@[a] < i,
            forall|k: int| 0 <= k < i ==> #[trigger] p@.contains(k as usize),
            forall|a: int, b: int| 0 <= a < b < p@.len() ==> ratio_desc_before(r@, #[trigger] p@[a] as int, #[trigger] p@[b] as int),
        decreases n - i,
    {
        let ri = r[i];
        let mut pos: usize = 0;
        while pos < p.len() && ratio_at_least(r[p[pos]], ri)
            invariant
                n == r@.len(),
                i < n,
                ri == r@[i as int],
                pos <= p@.len(),
                forall|a: int| 0 <= a < p@.len() ==> #[trigger] p@[a] < i,
                forall|a: int| 0 <= a < pos ==> !ratio_gt(ri, r@[#[trigger] p@[a] as int]),
            decreases p@.len() - pos,
        {
            pos = pos + 1;
        }
        let ghost old_p = p@;
        p.insert(pos, i);
        proof {
            assert(p@ == old_p.insert(pos as int, i));
            assert forall|a: int, b: int| 0 <= a < b < p@.len() implies ratio_desc_before(r@, #[trigger] p@[a] as int, #[trigger] p@[b] as int) by {
                if b < pos {
                    assert(p@[a] == old_p[a] && p@[b] == old_p[b]);
                } else if b == pos {
                    assert(p@[a] == old_p[a]);
                    assert(!ratio_gt(ri, r@[old_p[a] as int]));
                } else if a < pos {
                    assert(p@[a] == old_p[a] && p@[b] == old_p[b - 1]);
                } else if a == pos {
                    assert(p@[b] == old_p[b - 1]);
                    assert(ratio_gt(ri, r@[old_p[pos as int] as int]));
                    if b - 1 > pos {
                        assert(ratio_desc_before(r@, old_p[pos as int] as int, old_p[b - 1] as int));
                        lemma_ratio_gt_ge(ri, r@[old_p[pos as int] as int], r@[old_p[b - 1] as int]);
                    }
                } else {
                    assert(p@[a] == old_p[a - 1] && p@[b] == old_p[b - 1]);
                }
            }
            assert forall|k: int| 0 <= k < i + 1 implies #[trigger] p@.contains(k as usize) by {
                if k == i {
                    assert(p@[pos as int] == i);
                } else {
                    assert(old_p.contains(k as usize));
                    let a = choose|a: int| 0 <= a < old_p.len() && old_p[a] == k as usize;
                    if a < pos {
                        assert(p@[a] == k as usize);
                    } else {
                        assert(p@[a + 1] == k as usize);
                    }
                }
            }
        }
        i = i + 1;
    }
    p
}

} // verus!
