//! Query heads that share a kv head attend as if each had a copy of it.

use vstd::prelude::*;

use crate::kv_cache::{head_is_part_of_row, head_of, row_of, KvCache};
use crate::math::kernels::Kernels;
use crate::math::ops::softmaxed;
use crate::math::steady::{lemma_same_softmax, steady};
use crate::model::attention::{
    all_scored, attended, head_attended, lemma_head_inside, mixed, query_head, running_sums, scored,
    shared_out,
};
use crate::model::config::{
    equal_head_counts_share_nothing, lemma_kv_fits, query_heads_share_evenly, replicated,
    shared_heads_act_as_copies, Config,
};

verus! {

/// Whether head `g` of a layer of one cache holds the same keys and values as
/// head `f` of the layer of another.
pub open spec fn same_head<T>(a: KvCache<T>, g: int, b: KvCache<T>, f: int, layer: int) -> bool {
    &&& a.row_count(layer) == b.row_count(layer)
    &&& forall|t: int|
        0 <= t < a.row_count(layer) ==> #[trigger] head_of(
            a.key_buf(layer),
            a.row_len(),
            a.dim(),
            t,
            g,
        ) == head_of(b.key_buf(layer), b.row_len(), b.dim(), t, f)
    &&& forall|t: int|
        0 <= t < a.row_count(layer) ==> #[trigger] head_of(
            a.value_buf(layer),
            a.row_len(),
            a.dim(),
            t,
            g,
        ) == head_of(b.value_buf(layer), b.row_len(), b.dim(), t, f)
}

proof fn lemma_same_head_turned<T>(a: KvCache<T>, g: int, b: KvCache<T>, f: int, layer: int)
    requires
        same_head(a, g, b, f, layer),
    ensures
        same_head(b, f, a, g, layer),
{
    assert forall|t: int| 0 <= t < b.row_count(layer) implies #[trigger] head_of(
        b.key_buf(layer),
        b.row_len(),
        b.dim(),
        t,
        f,
    ) == head_of(a.key_buf(layer), a.row_len(), a.dim(), t, g) by {
        let _ = head_of(a.key_buf(layer), a.row_len(), a.dim(), t, g);
    }
    assert forall|t: int| 0 <= t < b.row_count(layer) implies #[trigger] head_of(
        b.value_buf(layer),
        b.row_len(),
        b.dim(),
        t,
        f,
    ) == head_of(a.value_buf(layer), a.row_len(), a.dim(), t, g) by {
        let _ = head_of(a.value_buf(layer), a.row_len(), a.dim(), t, g);
    }
}

/// Two heads that hold the same are read the same.
proof fn lemma_same_head_read<K: Kernels>(
    k: &K,
    c: Config,
    a: KvCache<K::Num>,
    d: Config,
    b: KvCache<K::Num>,
    layer: int,
    h: int,
    q: Seq<K::Num>,
    out: Seq<K::Num>,
)
    requires
        same_head(a, c.shared_head(h), b, d.shared_head(h), layer),
        c.head_len() == d.head_len(),
        head_attended(k, c, a, layer, h, q, out),
    ensures
        head_attended(k, d, b, layer, h, q, out),
{
    let (g, f, n) = (c.shared_head(h), d.shared_head(h), a.row_count(layer));
    let shares = choose|shares: Seq<K::Num>|
        {
            &&& #[trigger] shared_out(k, a, layer, g, q, shares)
            &&& forall|j: int|
                0 <= j < out.len() ==> mixed(k, a, layer, g, j, shares, n, #[trigger] out[j])
        };
    assert(shared_out(k, b, layer, f, q, shares)) by {
        let scores = choose|scores: Seq<K::Num>| #[trigger]
            all_scored(k, a, layer, g, q, scores) && softmaxed(k, scores, shares);
        assert forall|t: int| 0 <= t < scores.len() implies scored(
            k,
            b,
            layer,
            f,
            t,
            q,
            #[trigger] scores[t],
        ) by {
            assert(scored(k, a, layer, g, t, q, scores[t]));
        }
        assert(all_scored(k, b, layer, f, q, scores));
    }
    assert forall|j: int| 0 <= j < out.len() implies mixed(
        k,
        b,
        layer,
        f,
        j,
        shares,
        n,
        #[trigger] out[j],
    ) by {
        let sums = choose|sums: Seq<K::Num>| #[trigger]
            running_sums(k, a, layer, g, j, shares, sums) && sums.len() == n + 1 && sums[n]
                == out[j];
        assert(running_sums(k, b, layer, f, j, shares, sums));
    }
}

/// The hyperparameters with a kv head for each query head.
pub open spec fn unshared(c: Config) -> Config {
    Config { n_head_kv: c.n_head, ..c }
}

/// Whether the rows of a layer of `b` are those of `a` with every kv head
/// repeated for the query heads that share it.
pub open spec fn repeats<T>(c: Config, a: KvCache<T>, b: KvCache<T>, layer: int) -> bool {
    let (n, row, wide) = (a.row_count(layer), c.kv_len(), c.n_head * c.head_len());
    &&& a.row_len() == row && a.dim() == c.head_len()
    &&& b.row_len() == wide && b.dim() == c.head_len()
    &&& b.row_count(layer) == n
    &&& a.key_buf(layer).len() == n * row && a.value_buf(layer).len() == n * row
    &&& b.key_buf(layer).len() == n * wide && b.value_buf(layer).len() == n * wide
    &&& forall|t: int|
        0 <= t < n ==> #[trigger] row_of(b.key_buf(layer), wide, t) == replicated(
            c,
            row_of(a.key_buf(layer), row, t),
        )
    &&& forall|t: int|
        0 <= t < n ==> #[trigger] row_of(b.value_buf(layer), wide, t) == replicated(
            c,
            row_of(a.value_buf(layer), row, t),
        )
}

/// What a query head reads of one buffer of repeated rows.
proof fn lemma_repeated_head<T>(c: Config, x: Seq<T>, y: Seq<T>, n: int, t: int, h: int)
    requires
        c.heads_divide(),
        x.len() == n * c.kv_len(),
        y.len() == n * (c.n_head * c.head_len()),
        0 <= t < n,
        0 <= h < c.n_head,
        row_of(y, c.n_head * c.head_len(), t) == replicated(c, row_of(x, c.kv_len(), t)),
    ensures
        head_of(x, c.kv_len(), c.head_len(), t, c.shared_head(h)) == head_of(
            y,
            c.n_head * c.head_len(),
            c.head_len(),
            t,
            h,
        ),
{
    let (d, s) = (c.head_len(), c.shared_head(h));
    let row = row_of(x, c.kv_len(), t);
    lemma_kv_fits(c);
    lemma_head_inside(c, h, c.n_head as int);
    query_heads_share_evenly(c, h);
    let kv = c.kv_len();
    assert(0 <= t * kv && t * kv + kv <= n * kv) by (nonlinear_arith)
        requires
            0 <= t < n,
            0 <= kv,
    ;
    assert(row.len() == c.kv_len());
    shared_heads_act_as_copies(c, row, h);
    head_is_part_of_row(x, c.n_head_kv as int, d, n, t, s);
    head_is_part_of_row(y, c.n_head as int, d, n, t, h);
    assert(0 * kv == 0 && 0 * (c.n_head * d) == 0) by (nonlinear_arith);
}

/// Sharing a kv head is the same as giving each query head a copy of it: a
/// model in which query heads share kv heads attends as one that has a kv head
/// for each of them, over a cache in which every kv head is repeated.
pub proof fn shared_heads_attend_as_copies<K: Kernels>(
    k: &K,
    c: Config,
    a: KvCache<K::Num>,
    b: KvCache<K::Num>,
    layer: int,
    q: Seq<K::Num>,
    out: Seq<K::Num>,
)
    requires
        c.heads_divide(),
        repeats(c, a, b, layer),
    ensures
        attended(k, c, a, layer, q, out) == attended(k, unshared(c), b, layer, q, out),
{
    let (d, n) = (unshared(c), a.row_count(layer));
    assert forall|h: int| 0 <= h < c.n_head implies head_attended(
        k,
        c,
        a,
        layer,
        h,
        #[trigger] query_head(c, q, h),
        query_head(c, out, h),
    ) == head_attended(k, d, b, layer, h, query_head(d, q, h), query_head(d, out, h)) by {
        equal_head_counts_share_nothing(d, h);
        assert forall|t: int| 0 <= t < n implies #[trigger] head_of(
            a.key_buf(layer),
            a.row_len(),
            a.dim(),
            t,
            c.shared_head(h),
        ) == head_of(b.key_buf(layer), b.row_len(), b.dim(), t, h) by {
            assert(row_of(b.key_buf(layer), c.n_head * c.head_len(), t) == replicated(
                c,
                row_of(a.key_buf(layer), c.kv_len(), t),
            ));
            lemma_repeated_head(c, a.key_buf(layer), b.key_buf(layer), n, t, h);
        }
        assert forall|t: int| 0 <= t < n implies #[trigger] head_of(
            a.value_buf(layer),
            a.row_len(),
            a.dim(),
            t,
            c.shared_head(h),
        ) == head_of(b.value_buf(layer), b.row_len(), b.dim(), t, h) by {
            assert(row_of(b.value_buf(layer), c.n_head * c.head_len(), t) == replicated(
                c,
                row_of(a.value_buf(layer), c.kv_len(), t),
            ));
            lemma_repeated_head(c, a.value_buf(layer), b.value_buf(layer), n, t, h);
        }
        assert(same_head(a, c.shared_head(h), b, d.shared_head(h), layer));
        lemma_same_head_turned(a, c.shared_head(h), b, d.shared_head(h), layer);
        let (x, y) = (query_head(c, q, h), query_head(c, out, h));
        if head_attended(k, c, a, layer, h, x, y) {
            lemma_same_head_read(k, c, a, d, b, layer, h, x, y);
        }
        if head_attended(k, d, b, layer, h, x, y) {
            lemma_same_head_read(k, d, b, c, a, layer, h, x, y);
        }
    }
    if attended(k, c, a, layer, q, out) {
        assert forall|h: int| 0 <= h < d.n_head implies head_attended(
            k,
            d,
            b,
            layer,
            h,
            #[trigger] query_head(d, q, h),
            query_head(d, out, h),
        ) by {
            assert(query_head(c, q, h) == query_head(d, q, h));
        }
        assert(attended(k, d, b, layer, q, out));
    }
    if attended(k, d, b, layer, q, out) {
        assert forall|h: int| 0 <= h < c.n_head implies head_attended(
            k,
            c,
            a,
            layer,
            h,
            #[trigger] query_head(c, q, h),
            query_head(c, out, h),
        ) by {
            assert(query_head(c, q, h) == query_head(d, q, h));
        }
        assert(attended(k, c, a, layer, q, out));
    }
}

proof fn lemma_same_scores<K: Kernels>(
    k: &K,
    kv: KvCache<K::Num>,
    layer: int,
    g: int,
    q: Seq<K::Num>,
    a: Seq<K::Num>,
    b: Seq<K::Num>,
)
    requires
        steady(k),
        all_scored(k, kv, layer, g, q, a),
        all_scored(k, kv, layer, g, q, b),
    ensures
        a == b,
{
    assert forall|t: int| 0 <= t < a.len() implies a[t] == b[t] by {
        reveal(steady);
        assert(scored(k, kv, layer, g, t, q, a[t]));
        assert(scored(k, kv, layer, g, t, q, b[t]));
    }
    assert(a =~= b);
}

proof fn lemma_same_shares<K: Kernels>(
    k: &K,
    kv: KvCache<K::Num>,
    layer: int,
    g: int,
    q: Seq<K::Num>,
    a: Seq<K::Num>,
    b: Seq<K::Num>,
)
    requires
        steady(k),
        shared_out(k, kv, layer, g, q, a),
        shared_out(k, kv, layer, g, q, b),
    ensures
        a == b,
{
    let x = choose|x: Seq<K::Num>| #[trigger]
        all_scored(k, kv, layer, g, q, x) && softmaxed(k, x, a);
    let y = choose|y: Seq<K::Num>| #[trigger]
        all_scored(k, kv, layer, g, q, y) && softmaxed(k, y, b);
    lemma_same_scores(k, kv, layer, g, q, x, y);
    lemma_same_softmax(k, x, a, b);
}

proof fn lemma_same_sums<K: Kernels>(
    k: &K,
    kv: KvCache<K::Num>,
    layer: int,
    g: int,
    j: int,
    shares: Seq<K::Num>,
    a: Seq<K::Num>,
    b: Seq<K::Num>,
    i: int,
)
    requires
        steady(k),
        running_sums(k, kv, layer, g, j, shares, a),
        running_sums(k, kv, layer, g, j, shares, b),
        a.len() == b.len(),
        0 <= i < a.len(),
    ensures
        a[i] == b[i],
    decreases i,
{
    reveal(steady);
    if i > 0 {
        lemma_same_sums(k, kv, layer, g, j, shares, a, b, i - 1);
        let (x, y) = (a[i - 1], b[i - 1]);
        assert(a[i - 1 + 1] == b[i - 1 + 1]);
    }
}

proof fn lemma_same_head<K: Kernels>(
    k: &K,
    c: Config,
    kv: KvCache<K::Num>,
    layer: int,
    h: int,
    q: Seq<K::Num>,
    a: Seq<K::Num>,
    b: Seq<K::Num>,
)
    requires
        steady(k),
        head_attended(k, c, kv, layer, h, q, a),
        head_attended(k, c, kv, layer, h, q, b),
    ensures
        a == b,
{
    let (g, n) = (c.shared_head(h), kv.row_count(layer));
    let x = choose|x: Seq<K::Num>|
        {
            &&& #[trigger] shared_out(k, kv, layer, g, q, x)
            &&& forall|j: int|
                0 <= j < a.len() ==> mixed(k, kv, layer, g, j, x, n, #[trigger] a[j])
        };
    let y = choose|y: Seq<K::Num>|
        {
            &&& #[trigger] shared_out(k, kv, layer, g, q, y)
            &&& forall|j: int|
                0 <= j < b.len() ==> mixed(k, kv, layer, g, j, y, n, #[trigger] b[j])
        };
    lemma_same_shares(k, kv, layer, g, q, x, y);
    assert forall|j: int| 0 <= j < a.len() implies a[j] == b[j] by {
        assert(mixed(k, kv, layer, g, j, x, n, a[j]));
        assert(mixed(k, kv, layer, g, j, x, n, b[j]));
        let s = choose|s: Seq<K::Num>| #[trigger]
            running_sums(k, kv, layer, g, j, x, s) && s.len() == n + 1 && s[n] == a[j];
        let t = choose|t: Seq<K::Num>| #[trigger]
            running_sums(k, kv, layer, g, j, x, t) && t.len() == n + 1 && t[n] == b[j];
        lemma_same_sums(k, kv, layer, g, j, x, s, t, n);
    }
    assert(a =~= b);
}

/// Steady arithmetic reads the same of the same cache.
pub(crate) proof fn lemma_same_attended<K: Kernels>(
    k: &K,
    c: Config,
    kv: KvCache<K::Num>,
    layer: int,
    q: Seq<K::Num>,
    a: Seq<K::Num>,
    b: Seq<K::Num>,
)
    requires
        steady(k),
        c.heads_divide(),
        q.len() == c.n_embd,
        attended(k, c, kv, layer, q, a),
        attended(k, c, kv, layer, q, b),
    ensures
        a == b,
{
    let d = c.head_len();
    lemma_kv_fits(c);
    assert forall|j: int| 0 <= j < a.len() implies a[j] == b[j] by {
        if j < c.n_head * d {
            let (h, o) = (j / d, j % d);
            lemma_place_in_head(d, c.n_head as int, j);
            lemma_head_inside(c, h, c.n_head as int);
            let x = query_head(c, q, h);
            lemma_same_head(k, c, kv, layer, h, x, query_head(c, a, h), query_head(c, b, h));
            assert(a[j] == query_head(c, a, h)[o] && b[j] == query_head(c, b, h)[o]);
        } else {
            reveal(steady);
            assert(call_ensures(K::zero, (k,), a[j]));
            assert(call_ensures(K::zero, (k,), b[j]));
        }
    }
    assert(a =~= b);
}

/// A place among heads of `d` numbers is a place in one of them.
pub(crate) proof fn lemma_place_in_head(d: int, n: int, j: int)
    requires
        0 <= j < n * d,
        0 <= d,
        0 <= n,
    ensures
        d > 0,
        j == j / d * d + j % d,
        0 <= j % d < d,
        0 <= j / d < n,
{
    assert(d > 0) by (nonlinear_arith)
        requires
            0 <= j < n * d,
            0 <= d,
    ;
    assert(j == j / d * d + j % d && 0 <= j % d < d && 0 <= j / d < n) by (nonlinear_arith)
        requires
            0 <= j < n * d,
            d > 0,
    ;
}

} // verus!
