//! Arithmetic that always gives the same: what the kernels make of the same
//! numbers is then the same.

use vstd::prelude::*;

use crate::gguf::dtype::Element;
use crate::math::kernels::Kernels;
use crate::math::ops::{
    gated_by, norm_scaled, normed, running_tops, running_totals, shifted_exps, softmaxed, summed,
    topped, totalled,
};
use crate::math::quant::{
    block_added, block_product, block_sums, product, row_product, row_values,
};
use crate::math::rope::{in_pairs, pair_of, rotated};
use crate::model::weights::MatrixView;

verus! {

/// Whether the arithmetic always gives the same result for the same numbers.
#[verifier::opaque]
pub open spec fn steady<K: Kernels>(k: &K) -> bool {
    &&& forall|r: K::Num, s: K::Num| #[trigger]
        call_ensures(K::zero, (k,), r) && #[trigger] call_ensures(K::zero, (k,), s) ==> r == s
    &&& forall|r: K::Num, s: K::Num| #[trigger]
        call_ensures(K::lowest, (k,), r) && #[trigger] call_ensures(K::lowest, (k,), s) ==> r == s
    &&& forall|a: K::Num, b: K::Num, r: K::Num, s: K::Num| #[trigger]
        call_ensures(K::plus, (k, a, b), r) && #[trigger] call_ensures(K::plus, (k, a, b), s) ==> r
            == s
    &&& forall|a: K::Num, b: K::Num, c: K::Num, r: K::Num, s: K::Num| #[trigger]
        call_ensures(K::mix, (k, a, b, c), r) && #[trigger] call_ensures(K::mix, (k, a, b, c), s)
            ==> r == s
    &&& forall|e: Element, r: K::Num, s: K::Num| #[trigger]
        call_ensures(K::value, (k, e), r) && #[trigger] call_ensures(K::value, (k, e), s) ==> r
            == s
    &&& forall|
        a: &[Element],
        b: &[Element],
        x: &[K::Num],
        y: &[K::Num],
        r: K::Num,
        s: K::Num,
    | #[trigger]
        call_ensures(K::block_dot, (k, a, x), r) && #[trigger] call_ensures(
            K::block_dot,
            (k, b, y),
            s,
        ) && a@ == b@ && x@ == y@ ==> r == s
    &&& forall|x: &[K::Num], y: &[K::Num], eps: u32, r: K::Num, s: K::Num| #[trigger]
        call_ensures(K::norm_scale, (k, x, eps), r) && #[trigger] call_ensures(
            K::norm_scale,
            (k, y, eps),
            s,
        ) && x@ == y@ ==> r == s
    &&& forall|x: K::Num, c: K::Num, w: u32, r: K::Num, s: K::Num| #[trigger]
        call_ensures(K::scaled, (k, x, c, w), r) && #[trigger] call_ensures(
            K::scaled,
            (k, x, c, w),
            s,
        ) ==> r == s
    &&& forall|
        pos: usize,
        i: usize,
        d: usize,
        base: u32,
        p: (K::Num, K::Num),
        r: (K::Num, K::Num),
        s: (K::Num, K::Num),
    | #[trigger]
        call_ensures(K::rotate, (k, pos, i, d, base, p), r) && #[trigger] call_ensures(
            K::rotate,
            (k, pos, i, d, base, p),
            s,
        ) ==> r == s
    &&& forall|
        a: &[K::Num],
        b: &[K::Num],
        x: &[K::Num],
        y: &[K::Num],
        r: K::Num,
        s: K::Num,
    | #[trigger]
        call_ensures(K::score, (k, a, x), r) && #[trigger] call_ensures(K::score, (k, b, y), s)
            && a@ == b@ && x@ == y@ ==> r == s
    &&& forall|a: K::Num, b: K::Num, r: K::Num, s: K::Num| #[trigger]
        call_ensures(K::larger, (k, a, b), r) && #[trigger] call_ensures(K::larger, (k, a, b), s)
            ==> r == s
    &&& forall|a: K::Num, b: K::Num, r: K::Num, s: K::Num| #[trigger]
        call_ensures(K::exp_below, (k, a, b), r) && #[trigger] call_ensures(
            K::exp_below,
            (k, a, b),
            s,
        ) ==> r == s
    &&& forall|a: K::Num, b: K::Num, r: K::Num, s: K::Num| #[trigger]
        call_ensures(K::quotient, (k, a, b), r) && #[trigger] call_ensures(
            K::quotient,
            (k, a, b),
            s,
        ) ==> r == s
    &&& forall|a: K::Num, b: K::Num, r: K::Num, s: K::Num| #[trigger]
        call_ensures(K::gated, (k, a, b), r) && #[trigger] call_ensures(K::gated, (k, a, b), s)
            ==> r == s
}

pub(crate) proof fn lemma_same_values<K: Kernels>(
    k: &K,
    w: MatrixView,
    m: int,
    a: Seq<K::Num>,
    b: Seq<K::Num>,
)
    requires
        steady(k),
        row_values(k, w, m, a),
        row_values(k, w, m, b),
    ensures
        a == b,
{
    assert forall|j: int| 0 <= j < a.len() implies a[j] == b[j] by {
        reveal(steady);
        assert(call_ensures(K::value, (k, w.element(m, j)), a[j]));
        assert(call_ensures(K::value, (k, w.element(m, j)), b[j]));
    }
    assert(a =~= b);
}

pub(crate) proof fn lemma_same_norm<K: Kernels>(
    k: &K,
    x: Seq<K::Num>,
    weight: Seq<u32>,
    eps: u32,
    a: Seq<K::Num>,
    b: Seq<K::Num>,
)
    requires
        steady(k),
        normed(k, x, weight, eps, a),
        normed(k, x, weight, eps, b),
    ensures
        a == b,
{
    reveal(steady);
    let s = choose|s: K::Num|
        {
            &&& #[trigger] norm_scaled(k, x, eps, s)
            &&& forall|i: int|
                0 <= i < x.len() ==> call_ensures(
                    K::scaled,
                    (k, x[i], s, weight[i]),
                    #[trigger] a[i],
                )
        };
    let t = choose|t: K::Num|
        {
            &&& #[trigger] norm_scaled(k, x, eps, t)
            &&& forall|i: int|
                0 <= i < x.len() ==> call_ensures(
                    K::scaled,
                    (k, x[i], t, weight[i]),
                    #[trigger] b[i],
                )
        };
    assert(s == t);
    assert forall|i: int| 0 <= i < a.len() implies a[i] == b[i] by {
        assert(call_ensures(K::scaled, (k, x[i], s, weight[i]), a[i]));
        assert(call_ensures(K::scaled, (k, x[i], s, weight[i]), b[i]));
    }
    assert(a =~= b);
}

/// Whether row `m` of one matrix has the elements of row `n` of another.
pub open spec fn same_row(v: MatrixView, m: int, w: MatrixView, n: int) -> bool {
    &&& v.dtype == w.dtype
    &&& v.cols == w.cols
    &&& forall|j: int| 0 <= j < v.cols ==> #[trigger] v.element(m, j) == w.element(n, j)
}

proof fn lemma_same_block<K: Kernels>(
    k: &K,
    v: MatrixView,
    m: int,
    w: MatrixView,
    n: int,
    b: int,
    x: Seq<K::Num>,
    d: K::Num,
    e: K::Num,
)
    requires
        steady(k),
        same_row(v, m, w, n),
        0 <= b < v.cols / v.dtype.elems(),
        block_product(k, v, m, b, x, d),
        block_product(k, w, n, b, x, e),
    ensures
        d == e,
{
    reveal(steady);
    let be = v.dtype.elems();
    let (f, g) = (|j: int| v.element(m, b * be + j), |j: int| w.element(n, b * be + j));
    assert(0 <= b * be && b * be + be <= v.cols) by (nonlinear_arith)
        requires
            0 <= b < v.cols / be,
            be > 0,
    ;
    assert(Seq::new(be as nat, f) =~= Seq::new(be as nat, g));
}

proof fn lemma_same_block_sums<K: Kernels>(
    k: &K,
    v: MatrixView,
    m: int,
    w: MatrixView,
    n: int,
    x: Seq<K::Num>,
    r: Seq<K::Num>,
    s: Seq<K::Num>,
    i: int,
)
    requires
        steady(k),
        same_row(v, m, w, n),
        block_sums(k, v, m, x, r),
        block_sums(k, w, n, x, s),
        r.len() == s.len() == v.cols / v.dtype.elems() + 1,
        0 <= i < r.len(),
    ensures
        r[i] == s[i],
    decreases i,
{
    if i == 0 {
        reveal(steady);
    } else {
        lemma_same_block_sums(k, v, m, w, n, x, r, s, i - 1);
        assert(block_added(k, v, m, i - 1, x, r[i - 1], r[i - 1 + 1]));
        assert(block_added(k, w, n, i - 1, x, s[i - 1], s[i - 1 + 1]));
        let d = choose|d: K::Num| #[trigger]
            block_product(k, v, m, i - 1, x, d) && call_ensures(K::plus, (k, r[i - 1], d), r[i]);
        let e = choose|e: K::Num| #[trigger]
            block_product(k, w, n, i - 1, x, e) && call_ensures(K::plus, (k, s[i - 1], e), s[i]);
        lemma_same_block(k, v, m, w, n, i - 1, x, d, e);
        reveal(steady);
    }
}

/// Rows of the same elements have the same product.
pub(crate) proof fn lemma_same_row_product<K: Kernels>(
    k: &K,
    v: MatrixView,
    m: int,
    w: MatrixView,
    n: int,
    x: Seq<K::Num>,
    a: K::Num,
    b: K::Num,
)
    requires
        steady(k),
        same_row(v, m, w, n),
        row_product(k, v, m, x, a),
        row_product(k, w, n, x, b),
    ensures
        a == b,
{
    let r = choose|r: Seq<K::Num>| #[trigger]
        block_sums(k, v, m, x, r) && r.len() == v.cols / v.dtype.elems() + 1 && r.last() == a;
    let s = choose|s: Seq<K::Num>| #[trigger]
        block_sums(k, w, n, x, s) && s.len() == w.cols / w.dtype.elems() + 1 && s.last() == b;
    lemma_same_block_sums(k, v, m, w, n, x, r, s, r.len() - 1);
}

pub(crate) proof fn lemma_same_product<K: Kernels>(
    k: &K,
    w: MatrixView,
    x: Seq<K::Num>,
    a: Seq<K::Num>,
    b: Seq<K::Num>,
)
    requires
        steady(k),
        product(k, w, x, a),
        product(k, w, x, b),
    ensures
        a == b,
{
    assert forall|m: int| 0 <= m < a.len() implies a[m] == b[m] by {
        lemma_same_row_product(k, w, m, w, m, x, a[m], b[m]);
    }
    assert(a =~= b);
}

pub(crate) proof fn lemma_same_rotated<K: Kernels>(
    k: &K,
    pos: usize,
    head_dim: usize,
    base: u32,
    heads: int,
    before: Seq<K::Num>,
    a: Seq<K::Num>,
    b: Seq<K::Num>,
)
    requires
        steady(k),
        rotated(k, pos, head_dim, base, heads, before, a),
        rotated(k, pos, head_dim, base, heads, before, b),
    ensures
        a == b,
{
    assert forall|j: int| 0 <= j < a.len() implies a[j] == b[j] by {
        if in_pairs(head_dim as int, heads, j) {
            let (h, i) = choose|h: int, i: int|
                #![trigger pair_of(head_dim as int, h, i)]
                0 <= h < heads && 0 <= i < head_dim as int / 2 && (j == pair_of(
                    head_dim as int,
                    h,
                    i,
                ).0 || j == pair_of(head_dim as int, h, i).1);
            let (p, q) = pair_of(head_dim as int, h, i);
            reveal(steady);
            assert(call_ensures(
                K::rotate,
                (k, pos, i as usize, head_dim, base, (before[p], before[q])),
                (a[p], a[q]),
            ));
            assert(call_ensures(
                K::rotate,
                (k, pos, i as usize, head_dim, base, (before[p], before[q])),
                (b[p], b[q]),
            ));
            assert((a[p], a[q]) == (b[p], b[q]));
        } else {
            assert(a[j] == before[j] && b[j] == before[j]);
        }
    }
    assert(a =~= b);
}

pub(crate) proof fn lemma_same_sum<K: Kernels>(
    k: &K,
    x: Seq<K::Num>,
    y: Seq<K::Num>,
    a: Seq<K::Num>,
    b: Seq<K::Num>,
)
    requires
        steady(k),
        summed(k, x, y, a),
        summed(k, x, y, b),
    ensures
        a == b,
{
    assert forall|i: int| 0 <= i < a.len() implies a[i] == b[i] by {
        reveal(steady);
        assert(call_ensures(K::plus, (k, x[i], y[i]), a[i]));
        assert(call_ensures(K::plus, (k, x[i], y[i]), b[i]));
    }
    assert(a =~= b);
}

pub(crate) proof fn lemma_same_gated<K: Kernels>(
    k: &K,
    x: Seq<K::Num>,
    y: Seq<K::Num>,
    a: Seq<K::Num>,
    b: Seq<K::Num>,
)
    requires
        steady(k),
        gated_by(k, x, y, a),
        gated_by(k, x, y, b),
    ensures
        a == b,
{
    assert forall|i: int| 0 <= i < a.len() implies a[i] == b[i] by {
        reveal(steady);
        assert(call_ensures(K::gated, (k, x[i], y[i]), a[i]));
        assert(call_ensures(K::gated, (k, x[i], y[i]), b[i]));
    }
    assert(a =~= b);
}

proof fn lemma_same_tops<K: Kernels>(
    k: &K,
    x: Seq<K::Num>,
    a: Seq<K::Num>,
    b: Seq<K::Num>,
    i: int,
)
    requires
        steady(k),
        running_tops(k, x, a),
        running_tops(k, x, b),
        0 <= i < a.len(),
    ensures
        a[i] == b[i],
    decreases i,
{
    reveal(steady);
    if i > 0 {
        lemma_same_tops(k, x, a, b, i - 1);
        let y = x[i - 1];
        assert(call_ensures(K::larger, (k, a[i - 1], y), a[i - 1 + 1]));
        assert(call_ensures(K::larger, (k, b[i - 1], y), b[i - 1 + 1]));
    }
}

proof fn lemma_same_totals<K: Kernels>(
    k: &K,
    x: Seq<K::Num>,
    a: Seq<K::Num>,
    b: Seq<K::Num>,
    i: int,
)
    requires
        steady(k),
        running_totals(k, x, a),
        running_totals(k, x, b),
        0 <= i < a.len(),
    ensures
        a[i] == b[i],
    decreases i,
{
    reveal(steady);
    if i > 0 {
        lemma_same_totals(k, x, a, b, i - 1);
        let y = x[i - 1];
        assert(call_ensures(K::plus, (k, a[i - 1], y), a[i - 1 + 1]));
        assert(call_ensures(K::plus, (k, b[i - 1], y), b[i - 1 + 1]));
    }
}

proof fn lemma_same_exps<K: Kernels>(k: &K, x: Seq<K::Num>, a: Seq<K::Num>, b: Seq<K::Num>)
    requires
        steady(k),
        shifted_exps(k, x, a),
        shifted_exps(k, x, b),
    ensures
        a == b,
{
    let t = choose|t: K::Num| #[trigger]
        topped(k, x, t) && a.len() == x.len() && forall|i: int|
            0 <= i < x.len() ==> call_ensures(K::exp_below, (k, x[i], t), #[trigger] a[i]);
    let u = choose|u: K::Num| #[trigger]
        topped(k, x, u) && b.len() == x.len() && forall|i: int|
            0 <= i < x.len() ==> call_ensures(K::exp_below, (k, x[i], u), #[trigger] b[i]);
    let p = choose|p: Seq<K::Num>| #[trigger] running_tops(k, x, p) && p.last() == t;
    let q = choose|q: Seq<K::Num>| #[trigger] running_tops(k, x, q) && q.last() == u;
    lemma_same_tops(k, x, p, q, p.len() - 1);
    reveal(steady);
    assert forall|i: int| 0 <= i < a.len() implies a[i] == b[i] by {
        assert(call_ensures(K::exp_below, (k, x[i], t), a[i]));
        assert(call_ensures(K::exp_below, (k, x[i], t), b[i]));
    }
    assert(a =~= b);
}

pub(crate) proof fn lemma_same_softmax<K: Kernels>(
    k: &K,
    x: Seq<K::Num>,
    a: Seq<K::Num>,
    b: Seq<K::Num>,
)
    requires
        steady(k),
        softmaxed(k, x, a),
        softmaxed(k, x, b),
    ensures
        a == b,
{
    let (e, s) = choose|exps: Seq<K::Num>, sum: K::Num|
        {
            &&& #[trigger] shifted_exps(k, x, exps)
            &&& #[trigger] totalled(k, exps, sum)
            &&& a.len() == x.len()
            &&& forall|i: int|
                0 <= i < x.len() ==> call_ensures(K::quotient, (k, exps[i], sum), #[trigger] a[i])
        };
    let (f, t) = choose|exps: Seq<K::Num>, sum: K::Num|
        {
            &&& #[trigger] shifted_exps(k, x, exps)
            &&& #[trigger] totalled(k, exps, sum)
            &&& b.len() == x.len()
            &&& forall|i: int|
                0 <= i < x.len() ==> call_ensures(K::quotient, (k, exps[i], sum), #[trigger] b[i])
        };
    lemma_same_exps(k, x, e, f);
    let p = choose|p: Seq<K::Num>| #[trigger] running_totals(k, e, p) && p.last() == s;
    let q = choose|q: Seq<K::Num>| #[trigger] running_totals(k, f, q) && q.last() == t;
    lemma_same_totals(k, e, p, q, p.len() - 1);
    reveal(steady);
    assert forall|i: int| 0 <= i < a.len() implies a[i] == b[i] by {
        assert(call_ensures(K::quotient, (k, e[i], s), a[i]));
        assert(call_ensures(K::quotient, (k, e[i], s), b[i]));
    }
    assert(a =~= b);
}

} // verus!
