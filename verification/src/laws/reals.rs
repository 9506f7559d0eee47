//! Over the real numbers: what the steps of the arithmetic come to when every
//! call of it is exact.

use vstd::prelude::*;

use crate::laws::steps::{is_mix, is_softmax, softmax_of};
use crate::math::kernels::Kernels;

verus! {

/// Whether the arithmetic is that of the real numbers: `val` is the value of a
/// number, and `e` an exponential function.
pub open spec fn is_exact<K: Kernels>(
    k: &K,
    val: spec_fn(K::Num) -> real,
    e: spec_fn(real) -> real,
) -> bool {
    &&& forall|z: K::Num| #[trigger] call_ensures(K::zero, (k,), z) ==> val(z) == 0real
    &&& forall|a: K::Num, b: K::Num, c: K::Num| #[trigger]
        call_ensures(K::plus, (k, a, b), c) ==> val(c) == val(a) + val(b)
    &&& forall|a: K::Num, b: K::Num, c: K::Num| #[trigger]
        call_ensures(K::quotient, (k, a, b), c) && val(b) != 0real ==> val(c) == val(a) / val(b)
    &&& forall|x: K::Num, top: K::Num, c: K::Num| #[trigger]
        call_ensures(K::exp_below, (k, x, top), c) ==> val(c) == e(val(x) - val(top))
    &&& forall|a: real| #[trigger] e(a) > 0real
    &&& forall|a: real, b: real| #[trigger] e(a + b) == e(a) * e(b)
}

/// Over the real numbers the shares of two numbers are to each other as the
/// exponentials of these.
pub proof fn shares_follow_the_numbers<K: Kernels>(
    k: &K,
    x: Seq<K::Num>,
    shares: Seq<K::Num>,
    val: spec_fn(K::Num) -> real,
    e: spec_fn(real) -> real,
    i: int,
    j: int,
)
    requires
        is_exact(k, val, e),
        is_softmax(k, x, shares),
        0 <= i < x.len(),
        0 <= j < x.len(),
    ensures
        val(shares[i]) * e(val(x[j])) == val(shares[j]) * e(val(x[i])),
{
    let (tops, exps, sums) = choose|tops: Seq<K::Num>, exps: Seq<K::Num>, sums: Seq<K::Num>|
        #[trigger] softmax_of(k, x, tops, exps, sums, shares);
    let n = x.len() as int;
    lemma_sum_is_positive(k, exps, sums, val, n);
    let (top, total) = (val(tops[n]), val(sums[n]));
    let (a, b) = (val(x[i]), val(x[j]));
    assert(call_ensures(K::exp_below, (k, x[i], tops[n]), exps[i]));
    assert(call_ensures(K::exp_below, (k, x[j], tops[n]), exps[j]));
    assert(val(exps[i]) == e(a - top) && val(exps[j]) == e(b - top));
    assert(call_ensures(K::quotient, (k, exps[i], sums[n]), shares[i]));
    assert(call_ensures(K::quotient, (k, exps[j], sums[n]), shares[j]));
    assert(e((a - top) + b) == e(a - top) * e(b));
    assert(e((b - top) + a) == e(b - top) * e(a));
    assert((a - top) + b == (b - top) + a);
    lemma_over(e(a - top), e(b), e(b - top), e(a), total);
}

proof fn lemma_over(a: real, b: real, c: real, d: real, s: real)
    requires
        s != 0real,
        a * b == c * d,
    ensures
        (a / s) * b == (c / s) * d,
{
    assert((a / s) * b == (a * b) / s) by (nonlinear_arith)
        requires
            s != 0real,
    ;
    assert((c / s) * d == (c * d) / s) by (nonlinear_arith)
        requires
            s != 0real,
    ;
}

proof fn lemma_sum_is_positive<K: Kernels>(
    k: &K,
    exps: Seq<K::Num>,
    sums: Seq<K::Num>,
    val: spec_fn(K::Num) -> real,
    n: int,
)
    requires
        0 <= n <= exps.len(),
        sums.len() == exps.len() + 1,
        call_ensures(K::zero, (k,), sums[0]),
        forall|z: K::Num| #[trigger] call_ensures(K::zero, (k,), z) ==> val(z) == 0real,
        forall|a: K::Num, b: K::Num, c: K::Num| #[trigger]
            call_ensures(K::plus, (k, a, b), c) ==> val(c) == val(a) + val(b),
        forall|i: int|
            0 <= i < exps.len() ==> call_ensures(
                K::plus,
                (k, sums[i], #[trigger] exps[i]),
                sums[i + 1],
            ),
        forall|i: int| 0 <= i < exps.len() ==> val(#[trigger] exps[i]) > 0real,
    ensures
        val(sums[n]) >= 0real,
        n > 0 ==> val(sums[n]) > 0real,
    decreases n,
{
    if n > 0 {
        lemma_sum_is_positive(k, exps, sums, val, n - 1);
        assert(call_ensures(K::plus, (k, sums[n - 1], exps[n - 1]), sums[n - 1 + 1]));
    }
}

/// The sum of the values of the first `n` numbers.
pub open spec fn sum_of<T>(x: Seq<T>, val: spec_fn(T) -> real, n: int) -> real
    decreases n,
{
    if n <= 0 {
        0real
    } else {
        sum_of(x, val, n - 1) + val(x[n - 1])
    }
}

/// Over the real numbers the shares are positive and make one whole.
pub proof fn shares_make_one_whole<K: Kernels>(
    k: &K,
    x: Seq<K::Num>,
    shares: Seq<K::Num>,
    val: spec_fn(K::Num) -> real,
    e: spec_fn(real) -> real,
    i: int,
)
    requires
        is_exact(k, val, e),
        is_softmax(k, x, shares),
        0 <= i < x.len(),
    ensures
        val(shares[i]) > 0real,
        sum_of(shares, val, shares.len() as int) == 1real,
{
    let (tops, exps, sums) = choose|tops: Seq<K::Num>, exps: Seq<K::Num>, sums: Seq<K::Num>|
        #[trigger] softmax_of(k, x, tops, exps, sums, shares);
    let n = x.len() as int;
    assert forall|j: int| 0 <= j < n implies val(#[trigger] exps[j]) > 0real by {
        assert(call_ensures(K::exp_below, (k, x[j], tops[n]), exps[j]));
    }
    lemma_sum_is_positive(k, exps, sums, val, n);
    let total = val(sums[n]);
    lemma_sums(k, exps, sums, val, n);
    lemma_parts_of(k, exps, sums[n], shares, val, n);
    assert(total / total == 1real) by (nonlinear_arith)
        requires
            total > 0real,
    ;
    let part = val(exps[i]);
    assert(call_ensures(K::quotient, (k, exps[i], sums[n]), shares[i]));
    assert(part / total > 0real) by (nonlinear_arith)
        requires
            part > 0real,
            total > 0real,
    ;
}

proof fn lemma_sums<K: Kernels>(
    k: &K,
    exps: Seq<K::Num>,
    sums: Seq<K::Num>,
    val: spec_fn(K::Num) -> real,
    n: int,
)
    requires
        0 <= n <= exps.len(),
        sums.len() == exps.len() + 1,
        call_ensures(K::zero, (k,), sums[0]),
        forall|z: K::Num| #[trigger] call_ensures(K::zero, (k,), z) ==> val(z) == 0real,
        forall|a: K::Num, b: K::Num, c: K::Num| #[trigger]
            call_ensures(K::plus, (k, a, b), c) ==> val(c) == val(a) + val(b),
        forall|i: int|
            0 <= i < exps.len() ==> call_ensures(
                K::plus,
                (k, sums[i], #[trigger] exps[i]),
                sums[i + 1],
            ),
    ensures
        val(sums[n]) == sum_of(exps, val, n),
    decreases n,
{
    if n > 0 {
        lemma_sums(k, exps, sums, val, n - 1);
        assert(call_ensures(K::plus, (k, sums[n - 1], exps[n - 1]), sums[n - 1 + 1]));
    }
}

proof fn lemma_parts_of<K: Kernels>(
    k: &K,
    exps: Seq<K::Num>,
    total: K::Num,
    shares: Seq<K::Num>,
    val: spec_fn(K::Num) -> real,
    n: int,
)
    requires
        0 <= n <= exps.len(),
        shares.len() == exps.len(),
        val(total) != 0real,
        forall|a: K::Num, b: K::Num, c: K::Num| #[trigger]
            call_ensures(K::quotient, (k, a, b), c) && val(b) != 0real ==> val(c) == val(a) / val(
                b,
            ),
        forall|i: int|
            0 <= i < exps.len() ==> call_ensures(
                K::quotient,
                (k, exps[i], total),
                #[trigger] shares[i],
            ),
    ensures
        sum_of(shares, val, n) == sum_of(exps, val, n) / val(total),
    decreases n,
{
    let t = val(total);
    if n > 0 {
        lemma_parts_of(k, exps, total, shares, val, n - 1);
        assert(call_ensures(K::quotient, (k, exps[n - 1], total), shares[n - 1]));
        let (a, b) = (sum_of(exps, val, n - 1), val(exps[n - 1]));
        assert(a / t + b / t == (a + b) / t) by (nonlinear_arith)
            requires
                t != 0real,
        ;
    } else {
        assert(0real / t == 0real) by (nonlinear_arith)
            requires
                t != 0real,
        ;
    }
}

/// The sum of the shares of the first `n` rows, times number `j` of kv head `g` in
/// each.
pub open spec fn weighted<T>(
    n_kv: int,
    d: int,
    g: int,
    values: Seq<T>,
    j: int,
    shares: Seq<T>,
    val: spec_fn(T) -> real,
    n: int,
) -> real
    decreases n,
{
    if n <= 0 {
        0real
    } else {
        let t = n - 1;
        weighted(n_kv, d, g, values, j, shares, val, t) + val(shares[t]) * val(
            values.subrange(t * (n_kv * d) + g * d, t * (n_kv * d) + g * d + d)[j],
        )
    }
}

/// Over the real numbers what a query reads of a number is the mean of the rows,
/// each weighted by its share.
pub proof fn reading_is_a_weighted_mean<K: Kernels>(
    k: &K,
    n_kv: int,
    d: int,
    g: int,
    values: Seq<K::Num>,
    j: int,
    shares: Seq<K::Num>,
    sums: Seq<K::Num>,
    out: K::Num,
    val: spec_fn(K::Num) -> real,
)
    requires
        forall|z: K::Num| #[trigger] call_ensures(K::zero, (k,), z) ==> val(z) == 0real,
        forall|a: K::Num, b: K::Num, c: K::Num, r: K::Num| #[trigger]
            call_ensures(K::mix, (k, a, b, c), r) ==> val(r) == val(a) + val(b) * val(c),
        is_mix(k, n_kv, d, g, values, j, shares, sums, out),
    ensures
        val(out) == weighted(n_kv, d, g, values, j, shares, val, shares.len() as int),
{
    lemma_weighted(k, n_kv, d, g, values, j, shares, sums, out, val, shares.len() as int);
}

proof fn lemma_weighted<K: Kernels>(
    k: &K,
    n_kv: int,
    d: int,
    g: int,
    values: Seq<K::Num>,
    j: int,
    shares: Seq<K::Num>,
    sums: Seq<K::Num>,
    out: K::Num,
    val: spec_fn(K::Num) -> real,
    n: int,
)
    requires
        forall|z: K::Num| #[trigger] call_ensures(K::zero, (k,), z) ==> val(z) == 0real,
        forall|a: K::Num, b: K::Num, c: K::Num, r: K::Num| #[trigger]
            call_ensures(K::mix, (k, a, b, c), r) ==> val(r) == val(a) + val(b) * val(c),
        is_mix(k, n_kv, d, g, values, j, shares, sums, out),
        0 <= n <= shares.len(),
    ensures
        val(sums[n]) == weighted(n_kv, d, g, values, j, shares, val, n),
    decreases n,
{
    if n > 0 {
        let t = n - 1;
        lemma_weighted(k, n_kv, d, g, values, j, shares, sums, out, val, t);
        let x = values.subrange(t * (n_kv * d) + g * d, t * (n_kv * d) + g * d + d)[j];
        assert(call_ensures(K::mix, (k, sums[t], shares[t], x), sums[t + 1]));
    }
}

} // verus!
