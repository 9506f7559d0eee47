//! The steps of a forward pass: which numbers meet in which call of the
//! arithmetic.

use vstd::prelude::*;

use crate::gguf::Vector;
use crate::kv_cache::KvCache;
use crate::math::kernels::Kernels;
use crate::math::ops::{
    accumulate, normed, rmsnorm, running_totals, running_tops, shifted_exps, softmax, softmaxed,
    swiglu, topped, totalled,
};
use crate::math::quant::embed;
use crate::math::rope::{in_pairs, pair_of, rope, rotated};
use crate::model::attention::{
    all_scored, attend, attended, head_attended, mixed, query_head, running_sums, scored,
    shared_out,
};
use crate::model::config::Config;
use crate::model::weights::{Matrix, MatrixView};

verus! {

/// Whether every number of `out` is the one of `x`, scaled by one and the same
/// factor, that of all of `x`, and by its own weight.
pub open spec fn is_norm<K: Kernels>(
    k: &K,
    x: Seq<K::Num>,
    weight: Seq<u32>,
    eps: u32,
    out: Seq<K::Num>,
) -> bool {
    exists|all: &[K::Num], scale: K::Num|
        {
            &&& #[trigger] call_ensures(K::norm_scale, (k, all, eps), scale)
            &&& all@ == x
            &&& out.len() == x.len()
            &&& forall|i: int|
                0 <= i < x.len() ==> call_ensures(
                    K::scaled,
                    (k, x[i], scale, weight[i]),
                    #[trigger] out[i],
                )
        }
}

/// Whether every number of `out` is the sum of those of `a` and `b` at its place.
pub open spec fn is_sum<K: Kernels>(
    k: &K,
    a: Seq<K::Num>,
    b: Seq<K::Num>,
    out: Seq<K::Num>,
) -> bool {
    &&& out.len() == a.len()
    &&& forall|i: int|
        0 <= i < a.len() ==> call_ensures(K::plus, (k, a[i], b[i]), #[trigger] out[i])
}

/// Whether every number of `out` is that of `up`, gated by that of `gate`.
pub open spec fn is_gated<K: Kernels>(
    k: &K,
    gate: Seq<K::Num>,
    up: Seq<K::Num>,
    out: Seq<K::Num>,
) -> bool {
    &&& out.len() == gate.len()
    &&& forall|i: int|
        0 <= i < gate.len() ==> call_ensures(K::gated, (k, gate[i], up[i]), #[trigger] out[i])
}

/// Whether `out` are the values of row `m` of a matrix, in order.
pub open spec fn is_row<K: Kernels>(k: &K, w: MatrixView, m: int, out: Seq<K::Num>) -> bool {
    &&& out.len() == w.cols
    &&& forall|j: int|
        0 <= j < w.cols ==> call_ensures(K::value, (k, w.element(m, j)), #[trigger] out[j])
}

/// Whether numbers `2 * i` and `2 * i + 1` of head `h` are rotated together: for
/// the position, by the frequency of pair `i`, to the given base.
pub open spec fn pair_is_turned<K: Kernels>(
    k: &K,
    pos: usize,
    d: int,
    base: u32,
    h: int,
    i: int,
    x: Seq<K::Num>,
    out: Seq<K::Num>,
) -> bool {
    call_ensures(
        K::rotate,
        (k, pos, i as usize, d as usize, base, (x[h * d + 2 * i], x[h * d + 2 * i + 1])),
        (out[h * d + 2 * i], out[h * d + 2 * i + 1]),
    )
}

/// Whether every pair of the first `heads` heads is rotated, and whatever lies
/// behind them is as it was.
pub open spec fn is_turned<K: Kernels>(
    k: &K,
    pos: usize,
    d: int,
    base: u32,
    heads: int,
    x: Seq<K::Num>,
    out: Seq<K::Num>,
) -> bool {
    &&& out.len() == x.len()
    &&& forall|h: int, i: int|
        0 <= h < heads && 0 <= i < d / 2 ==> #[trigger] pair_is_turned(
            k,
            pos,
            d,
            base,
            h,
            i,
            x,
            out,
        )
    &&& forall|j: int| heads * d <= j < x.len() ==> #[trigger] out[j] == x[j]
}

/// Whether `out` is the softmax of `x`: `tops` are the largest numbers so far,
/// `exps` the exponentials below the largest of all, `sums` their sums so far,
/// and every share is its exponential over the sum of all.
pub open spec fn softmax_of<K: Kernels>(
    k: &K,
    x: Seq<K::Num>,
    tops: Seq<K::Num>,
    exps: Seq<K::Num>,
    sums: Seq<K::Num>,
    out: Seq<K::Num>,
) -> bool {
    let n = x.len() as int;
    &&& tops.len() == n + 1
    &&& call_ensures(K::lowest, (k,), tops[0])
    &&& forall|i: int|
        0 <= i < n ==> call_ensures(K::larger, (k, tops[i], #[trigger] x[i]), tops[i + 1])
    &&& exps.len() == n
    &&& forall|i: int|
        0 <= i < n ==> call_ensures(K::exp_below, (k, x[i], tops[n]), #[trigger] exps[i])
    &&& sums.len() == n + 1
    &&& call_ensures(K::zero, (k,), sums[0])
    &&& forall|i: int|
        0 <= i < n ==> call_ensures(K::plus, (k, sums[i], #[trigger] exps[i]), sums[i + 1])
    &&& out.len() == n
    &&& forall|i: int|
        0 <= i < n ==> call_ensures(K::quotient, (k, exps[i], sums[n]), #[trigger] out[i])
}

/// Whether `out` is the softmax of `x`.
pub open spec fn is_softmax<K: Kernels>(k: &K, x: Seq<K::Num>, out: Seq<K::Num>) -> bool {
    exists|tops: Seq<K::Num>, exps: Seq<K::Num>, sums: Seq<K::Num>| #[trigger]
        softmax_of(k, x, tops, exps, sums, out)
}

/// Whether `score` is what a query scores with the numbers of kv head `g` in row
/// `t` of the keys; a row holds `n_kv` heads of `d` numbers.
pub open spec fn is_score<K: Kernels>(
    k: &K,
    n_kv: int,
    d: int,
    g: int,
    keys: Seq<K::Num>,
    t: int,
    query: Seq<K::Num>,
    score: K::Num,
) -> bool {
    exists|a: &[K::Num], b: &[K::Num]| #[trigger]
        call_ensures(K::score, (k, a, b), score) && a@ == query && b@ == keys.subrange(
            t * (n_kv * d) + g * d,
            t * (n_kv * d) + g * d + d,
        )
}

/// Whether `out` is what the shares of the rows take of number `j` of kv head
/// `g` in the rows of the values, from the first row to the last.
pub open spec fn is_mix<K: Kernels>(
    k: &K,
    n_kv: int,
    d: int,
    g: int,
    values: Seq<K::Num>,
    j: int,
    shares: Seq<K::Num>,
    sums: Seq<K::Num>,
    out: K::Num,
) -> bool {
    &&& sums.len() == shares.len() + 1
    &&& call_ensures(K::zero, (k,), sums[0])
    &&& forall|t: int|
        0 <= t < shares.len() ==> call_ensures(
            K::mix,
            (
                k,
                sums[t],
                #[trigger] shares[t],
                values.subrange(t * (n_kv * d) + g * d, t * (n_kv * d) + g * d + d)[j],
            ),
            sums[t + 1],
        )
    &&& sums[shares.len() as int] == out
}

/// Whether `out` is what the shares take of number `j`, for some running sums.
pub open spec fn is_mixed<K: Kernels>(
    k: &K,
    n_kv: int,
    d: int,
    g: int,
    values: Seq<K::Num>,
    j: int,
    shares: Seq<K::Num>,
    out: K::Num,
) -> bool {
    exists|sums: Seq<K::Num>| #[trigger] is_mix(k, n_kv, d, g, values, j, shares, sums, out)
}

/// Whether `out` is what a query reads of kv head `g`: one score per row, their
/// softmax, and every number of the head taken by these shares.
pub open spec fn head_reads<K: Kernels>(
    k: &K,
    n_kv: int,
    d: int,
    g: int,
    rows: int,
    keys: Seq<K::Num>,
    values: Seq<K::Num>,
    query: Seq<K::Num>,
    scores: Seq<K::Num>,
    shares: Seq<K::Num>,
    out: Seq<K::Num>,
) -> bool {
    &&& scores.len() == rows
    &&& forall|t: int|
        0 <= t < rows ==> is_score(k, n_kv, d, g, keys, t, query, #[trigger] scores[t])
    &&& is_softmax(k, scores, shares)
    &&& out.len() == d
    &&& forall|j: int|
        0 <= j < d ==> is_mixed(k, n_kv, d, g, values, j, shares, #[trigger] out[j])
}

/// Whether `out` is what a query reads of kv head `g`, for some scores and
/// shares.
pub open spec fn query_reads<K: Kernels>(
    k: &K,
    n_kv: int,
    d: int,
    g: int,
    rows: int,
    keys: Seq<K::Num>,
    values: Seq<K::Num>,
    query: Seq<K::Num>,
    out: Seq<K::Num>,
) -> bool {
    exists|scores: Seq<K::Num>, shares: Seq<K::Num>| #[trigger]
        head_reads(k, n_kv, d, g, rows, keys, values, query, scores, shares, out)
}

/// The number of rows of `len` numbers.
pub open spec fn rows_of<T>(keys: Seq<T>, len: int) -> int {
    if len == 0 {
        0
    } else {
        keys.len() as int / len
    }
}

/// Whether a query head reads its kv head: the first `n_head / n_kv` query heads
/// the first kv head, the next as many the next.
pub open spec fn head_is_attended<K: Kernels>(
    k: &K,
    n_head: int,
    n_kv: int,
    d: int,
    keys: Seq<K::Num>,
    values: Seq<K::Num>,
    q: Seq<K::Num>,
    h: int,
    out: Seq<K::Num>,
) -> bool {
    query_reads(
        k,
        n_kv,
        d,
        h / (n_head / n_kv),
        rows_of(keys, n_kv * d),
        keys,
        values,
        q.subrange(h * d, h * d + d),
        out.subrange(h * d, h * d + d),
    )
}

/// Whether `out` is what the query heads in `q` read of the keys and values, one
/// head beside the other, with zeros behind the last.
pub open spec fn is_attention<K: Kernels>(
    k: &K,
    n_head: int,
    n_kv: int,
    d: int,
    keys: Seq<K::Num>,
    values: Seq<K::Num>,
    q: Seq<K::Num>,
    out: Seq<K::Num>,
) -> bool {
    &&& out.len() == q.len()
    &&& forall|h: int|
        0 <= h < n_head ==> #[trigger] head_is_attended(
            k,
            n_head,
            n_kv,
            d,
            keys,
            values,
            q,
            h,
            out,
        )
    &&& forall|j: int|
        n_head * d <= j < out.len() ==> call_ensures(K::zero, (k,), #[trigger] out[j])
}

/// The norm scales all numbers by one factor.
pub proof fn norm_scales_by_one_factor<K: Kernels>(
    k: &K,
    x: &[K::Num],
    weight: &Vector<'_>,
    eps: u32,
    out: Vec<K::Num>,
)
    requires
        call_ensures(rmsnorm::<K>, (k, x, weight, eps), out),
    ensures
        is_norm(k, x@, weight@, eps, out@),
{
    lemma_normed(k, x@, weight@, eps, out@);
}

pub(crate) proof fn lemma_normed<K: Kernels>(
    k: &K,
    x: Seq<K::Num>,
    weight: Seq<u32>,
    eps: u32,
    out: Seq<K::Num>,
)
    requires
        normed(k, x, weight, eps, out),
    ensures
        is_norm(k, x, weight, eps, out),
{
    let scale = choose|scale: K::Num|
        {
            &&& #[trigger] crate::math::ops::norm_scaled(k, x, eps, scale)
            &&& forall|i: int|
                0 <= i < x.len() ==> call_ensures(
                    K::scaled,
                    (k, x[i], scale, weight[i]),
                    #[trigger] out[i],
                )
        };
    let s = choose|s: &[K::Num]| #[trigger]
        call_ensures(K::norm_scale, (k, s, eps), scale) && s@ == x;
    assert(call_ensures(K::norm_scale, (k, s, eps), scale));
}

/// The residual sum and the SwiGLU work place by place.
pub proof fn places_keep_to_themselves<K: Kernels>(
    k: &K,
    a: &[K::Num],
    b: &[K::Num],
    sum: Vec<K::Num>,
    gated: Vec<K::Num>,
)
    requires
        call_ensures(accumulate::<K>, (k, a, b), sum),
        call_ensures(swiglu::<K>, (k, a, b), gated),
    ensures
        is_sum(k, a@, b@, sum@),
        is_gated(k, a@, b@, gated@),
{
}

/// The embedding of a token is the row of its number.
pub proof fn embedding_is_the_row<K: Kernels>(k: &K, w: &Matrix<'_>, m: usize, out: Vec<K::Num>)
    requires
        call_ensures(embed::<K>, (k, w, m), out),
    ensures
        is_row(k, w@, m as int, out@),
{
}

/// The rotation turns every pair of every head, by the position, the head size
/// and the base that it is given, and nothing else.
pub proof fn rope_turns_pairs<K: Kernels>(
    k: &K,
    v: &[K::Num],
    pos: usize,
    heads: usize,
    d: usize,
    base: u32,
    out: Vec<K::Num>,
)
    requires
        call_ensures(rope::<K>, (k, v, pos, heads, d, base), out),
    ensures
        is_turned(k, pos, d as int, base, heads as int, v@, out@),
{
    lemma_rotated(k, pos, d, base, heads as int, v@, out@);
}

pub(crate) proof fn lemma_rotated<K: Kernels>(
    k: &K,
    pos: usize,
    d: usize,
    base: u32,
    heads: int,
    x: Seq<K::Num>,
    out: Seq<K::Num>,
)
    requires
        0 <= heads,
        rotated(k, pos, d, base, heads, x, out),
    ensures
        is_turned(k, pos, d as int, base, heads, x, out),
{
    assert forall|h: int, i: int|
        0 <= h < heads && 0 <= i < d as int / 2 implies #[trigger] pair_is_turned(
        k,
        pos,
        d as int,
        base,
        h,
        i,
        x,
        out,
    ) by {
        assert(pair_of(d as int, h, i) == (h * d + 2 * i, h * d + 2 * i + 1));
    }
    assert forall|j: int| heads * d <= j < x.len() implies #[trigger] out[j] == x[j] by {
        assert forall|h: int, i: int| 0 <= h < heads && 0 <= i < d as int / 2 implies j
            != #[trigger] pair_of(d as int, h, i).0 && j != pair_of(d as int, h, i).1 by {
            assert(h * d + d <= heads * d) by (nonlinear_arith)
                requires
                    0 <= h < heads,
                    0 <= d,
            ;
        }
        assert(heads * d >= 0) by (nonlinear_arith)
            requires
                0 <= heads,
                0 <= d,
        ;
        assert(!in_pairs(d as int, heads, j));
    }
}

/// The softmax is one exponential per number, below the largest of them, over
/// the sum of all.
pub proof fn shares_are_exponentials<K: Kernels>(k: &K, x: &[K::Num], out: Vec<K::Num>)
    requires
        call_ensures(softmax::<K>, (k, x), out),
    ensures
        is_softmax(k, x@, out@),
{
    lemma_softmaxed(k, x@, out@);
}

pub(crate) proof fn lemma_softmaxed<K: Kernels>(k: &K, x: Seq<K::Num>, out: Seq<K::Num>)
    requires
        softmaxed(k, x, out),
    ensures
        is_softmax(k, x, out),
{
    let (exps, sum) = choose|exps: Seq<K::Num>, sum: K::Num|
        {
            &&& #[trigger] shifted_exps(k, x, exps)
            &&& #[trigger] totalled(k, exps, sum)
            &&& out.len() == x.len()
            &&& forall|i: int|
                0 <= i < x.len() ==> call_ensures(K::quotient, (k, exps[i], sum), #[trigger] out[i])
        };
    let top = choose|top: K::Num| #[trigger]
        topped(k, x, top) && exps.len() == x.len() && forall|i: int|
            0 <= i < x.len() ==> call_ensures(K::exp_below, (k, x[i], top), #[trigger] exps[i]);
    let tops = choose|tops: Seq<K::Num>| #[trigger] running_tops(k, x, tops) && tops.last() == top;
    let sums = choose|sums: Seq<K::Num>| #[trigger]
        running_totals(k, exps, sums) && sums.last() == sum;
    assert(softmax_of(k, x, tops, exps, sums, out));
}

/// Every query head reads the kv head of its group: one score per cached row,
/// their softmax, and the values by these shares.
pub proof fn heads_read_their_rows<K: Kernels>(
    k: &K,
    c: &Config,
    kv: &KvCache<K::Num>,
    layer: usize,
    q: &[K::Num],
    out: Vec<K::Num>,
)
    requires
        kv.heads() == c.n_head_kv,
        kv.dim() == c.n_embd as int / c.n_head as int,
        call_ensures(attend::<K>, (k, c, kv, layer, q), out),
    ensures
        is_attention(
            k,
            c.n_head as int,
            c.n_head_kv as int,
            c.n_embd as int / c.n_head as int,
            kv.key_buf(layer as int),
            kv.value_buf(layer as int),
            q@,
            out@,
        ),
{
    lemma_attended(k, *c, *kv, layer as int, q@, out@);
}

pub(crate) proof fn lemma_attended<K: Kernels>(
    k: &K,
    c: Config,
    kv: KvCache<K::Num>,
    layer: int,
    q: Seq<K::Num>,
    out: Seq<K::Num>,
)
    requires
        kv.heads() == c.n_head_kv,
        kv.dim() == c.n_embd as int / c.n_head as int,
        attended(k, c, kv, layer, q, out),
    ensures
        is_attention(
            k,
            c.n_head as int,
            c.n_head_kv as int,
            c.n_embd as int / c.n_head as int,
            kv.key_buf(layer),
            kv.value_buf(layer),
            q,
            out,
        ),
{
    let (n_head, n_kv, d) = (
        c.n_head as int,
        c.n_head_kv as int,
        c.n_embd as int / c.n_head as int,
    );
    assert forall|h: int| 0 <= h < n_head implies #[trigger] head_is_attended(
        k,
        n_head,
        n_kv,
        d,
        kv.key_buf(layer),
        kv.value_buf(layer),
        q,
        h,
        out,
    ) by {
        assert(query_head(c, q, h) == q.subrange(h * d, h * d + d));
        lemma_head_attended(k, c, kv, layer, h, query_head(c, q, h), query_head(c, out, h));
    }
}

proof fn lemma_head_attended<K: Kernels>(
    k: &K,
    c: Config,
    kv: KvCache<K::Num>,
    layer: int,
    h: int,
    query: Seq<K::Num>,
    out: Seq<K::Num>,
)
    requires
        kv.heads() == c.n_head_kv,
        kv.dim() == c.n_embd as int / c.n_head as int,
        head_attended(k, c, kv, layer, h, query, out),
    ensures
        query_reads(
            k,
            c.n_head_kv as int,
            c.n_embd as int / c.n_head as int,
            h / (c.n_head as int / c.n_head_kv as int),
            kv.row_count(layer),
            kv.key_buf(layer),
            kv.value_buf(layer),
            query,
            out,
        ),
{
    let (n_kv, d) = (c.n_head_kv as int, c.n_embd as int / c.n_head as int);
    let g = h / (c.n_head as int / n_kv);
    let (keys, values) = (kv.key_buf(layer), kv.value_buf(layer));
    let rows = kv.row_count(layer);
    let shares = choose|shares: Seq<K::Num>|
        {
            &&& #[trigger] shared_out(k, kv, layer, g, query, shares)
            &&& forall|j: int|
                0 <= j < out.len() ==> mixed(k, kv, layer, g, j, shares, rows, #[trigger] out[j])
        };
    let scores = choose|scores: Seq<K::Num>| #[trigger]
        all_scored(k, kv, layer, g, query, scores) && softmaxed(k, scores, shares);
    lemma_softmaxed(k, scores, shares);
    assert forall|t: int| 0 <= t < rows implies is_score(
        k,
        n_kv,
        d,
        g,
        keys,
        t,
        query,
        #[trigger] scores[t],
    ) by {
        assert(scored(k, kv, layer, g, t, query, scores[t]));
    }
    assert forall|j: int| 0 <= j < d implies is_mixed(
        k,
        n_kv,
        d,
        g,
        values,
        j,
        shares,
        #[trigger] out[j],
    ) by {
        assert(mixed(k, kv, layer, g, j, shares, rows, out[j]));
        let sums = choose|sums: Seq<K::Num>| #[trigger]
            running_sums(k, kv, layer, g, j, shares, sums) && sums.len() == rows + 1 && sums[rows]
                == out[j];
        assert(shares.len() == rows);
        assert forall|t: int| 0 <= t < shares.len() implies call_ensures(
            K::mix,
            (
                k,
                sums[t],
                #[trigger] shares[t],
                values.subrange(t * (n_kv * d) + g * d, t * (n_kv * d) + g * d + d)[j],
            ),
            sums[t + 1],
        ) by {
            assert(sums[t] == sums[t]);
        }
        assert(is_mix(k, n_kv, d, g, values, j, shares, sums, out[j]));
    }
    assert(head_reads(k, n_kv, d, g, rows, keys, values, query, scores, shares, out));
}

} // verus!
