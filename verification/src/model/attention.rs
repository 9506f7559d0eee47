//! Causal attention over the cache: which query meets which key, and which
//! value which share.

use vstd::prelude::*;
use vstd::slice::slice_subrange;

use crate::kv_cache::{head_of, KvCache};
use crate::math::kernels::Kernels;
use crate::math::ops::{softmax, softmaxed};
use crate::model::config::{lemma_kv_fits, Config};

verus! {

/// Whether `score` is what the query `q` and the key of kv head `g` at position
/// `t` score.
pub open spec fn scored<K: Kernels>(
    k: &K,
    kv: KvCache<K::Num>,
    layer: int,
    g: int,
    t: int,
    q: Seq<K::Num>,
    score: K::Num,
) -> bool {
    exists|a: &[K::Num], b: &[K::Num]| #[trigger]
        call_ensures(K::score, (k, a, b), score) && a@ == q && b@ == head_of(
            kv.key_buf(layer),
            kv.row_len(),
            kv.dim(),
            t,
            g,
        )
}

/// Whether `scores` is what the query `q` scores with the keys of kv head `g`,
/// position by position.
pub open spec fn all_scored<K: Kernels>(
    k: &K,
    kv: KvCache<K::Num>,
    layer: int,
    g: int,
    q: Seq<K::Num>,
    scores: Seq<K::Num>,
) -> bool {
    &&& scores.len() == kv.row_count(layer)
    &&& forall|t: int|
        0 <= t < scores.len() ==> scored(k, kv, layer, g, t, q, #[trigger] scores[t])
}

/// Whether `shares` are the shares of the positions: the softmax of the scores
/// of the query `q` with the keys of kv head `g`.
pub open spec fn shared_out<K: Kernels>(
    k: &K,
    kv: KvCache<K::Num>,
    layer: int,
    g: int,
    q: Seq<K::Num>,
    shares: Seq<K::Num>,
) -> bool {
    exists|scores: Seq<K::Num>| #[trigger]
        all_scored(k, kv, layer, g, q, scores) && softmaxed(k, scores, shares)
}

/// Whether `sums` are the running sums of number `j` of the values of kv head
/// `g`, taken by shares: zero, and then one value after the other.
pub open spec fn running_sums<K: Kernels>(
    k: &K,
    kv: KvCache<K::Num>,
    layer: int,
    g: int,
    j: int,
    shares: Seq<K::Num>,
    sums: Seq<K::Num>,
) -> bool {
    &&& sums.len() > 0
    &&& call_ensures(K::zero, (k,), sums[0])
    &&& forall|t: int|
        0 <= t < sums.len() - 1 ==> call_ensures(
            K::mix,
            (
                k,
                #[trigger] sums[t],
                shares[t],
                head_of(kv.value_buf(layer), kv.row_len(), kv.dim(), t, g)[j],
            ),
            sums[t + 1],
        )
}

/// Whether `out` is number `j` of the values of kv head `g`, taken by shares
/// over the first `n` positions.
pub open spec fn mixed<K: Kernels>(
    k: &K,
    kv: KvCache<K::Num>,
    layer: int,
    g: int,
    j: int,
    shares: Seq<K::Num>,
    n: int,
    out: K::Num,
) -> bool {
    exists|sums: Seq<K::Num>| #[trigger]
        running_sums(k, kv, layer, g, j, shares, sums) && sums.len() == n + 1 && sums[n] == out
}

/// Whether `out` is what query head `h`, with the numbers `q`, reads of a layer
/// of the cache.
pub open spec fn head_attended<K: Kernels>(
    k: &K,
    c: Config,
    kv: KvCache<K::Num>,
    layer: int,
    h: int,
    q: Seq<K::Num>,
    out: Seq<K::Num>,
) -> bool {
    let g = c.shared_head(h);
    &&& out.len() == c.head_len()
    &&& exists|shares: Seq<K::Num>|
        {
            &&& #[trigger] shared_out(k, kv, layer, g, q, shares)
            &&& forall|j: int|
                0 <= j < out.len() ==> mixed(
                    k,
                    kv,
                    layer,
                    g,
                    j,
                    shares,
                    kv.row_count(layer),
                    #[trigger] out[j],
                )
        }
}

/// The numbers of query head `h`.
pub open spec fn query_head<T>(c: Config, q: Seq<T>, h: int) -> Seq<T> {
    q.subrange(h * c.head_len(), h * c.head_len() + c.head_len())
}

/// Whether `out` is what the query heads in `q` read of a layer of the cache,
/// head by head, with zeros behind the last head.
pub open spec fn attended<K: Kernels>(
    k: &K,
    c: Config,
    kv: KvCache<K::Num>,
    layer: int,
    q: Seq<K::Num>,
    out: Seq<K::Num>,
) -> bool {
    &&& out.len() == q.len()
    &&& forall|h: int|
        0 <= h < c.n_head ==> head_attended(
            k,
            c,
            kv,
            layer,
            h,
            #[trigger] query_head(c, q, h),
            query_head(c, out, h),
        )
    &&& forall|j: int|
        c.n_head * c.head_len() <= j < out.len() ==> call_ensures(K::zero, (k,), #[trigger] out[j])
}

/// The shares of one query head in the positions of a layer.
fn head_shares<K: Kernels>(
    k: &K,
    kv: &KvCache<K::Num>,
    layer: usize,
    g: usize,
    q: &[K::Num],
) -> (shares: Vec<K::Num>)
    requires
        kv.wf(),
        layer < kv.layers(),
        g < kv.heads(),
        q@.len() == kv.dim(),
    ensures
        shared_out(k, *kv, layer as int, g as int, q@, shares@),
        shares@.len() == kv.row_count(layer as int),
{
    let n: usize = kv.rows(layer);
    let mut scores: Vec<K::Num> = Vec::new();
    let mut t: usize = 0;
    while t < n
        invariant
            kv.wf(),
            layer < kv.layers(),
            g < kv.heads(),
            q@.len() == kv.dim(),
            n == kv.row_count(layer as int),
            n * kv.row_len() <= kv.key_buf(layer as int).len(),
            t <= n,
            scores@.len() == t,
            forall|i: int|
                0 <= i < t ==> scored(
                    k,
                    *kv,
                    layer as int,
                    g as int,
                    i,
                    q@,
                    #[trigger] scores@[i],
                ),
        decreases n - t,
    {
        proof {
            lemma_row_fits(*kv, t as int, n as int, g as int);
        }
        let key: &[K::Num] = kv.key(layer, t, g);
        assert(key@.len() == kv.dim());
        let s: K::Num = k.score(q, key);
        assert(scored(k, *kv, layer as int, g as int, t as int, q@, s));
        scores.push(s);
        t += 1;
    }
    assert(all_scored(k, *kv, layer as int, g as int, q@, scores@));
    softmax(k, scores.as_slice())
}

/// A row and a head of it lie inside a buffer of enough rows.
proof fn lemma_row_fits<T>(kv: KvCache<T>, t: int, n: int, g: int)
    requires
        0 <= t < n,
        0 <= g < kv.heads(),
        0 <= kv.dim(),
    ensures
        (t + 1) * kv.row_len() <= n * kv.row_len(),
        0 <= t * kv.row_len(),
        0 <= g * kv.dim(),
        t * kv.row_len() + g * kv.dim() + kv.dim() <= n * kv.row_len(),
{
    let (h, d) = (kv.heads(), kv.dim());
    assert(g * d + d <= h * d && 0 <= g * d && 0 <= h * d) by (nonlinear_arith)
        requires
            0 <= g < h,
            0 <= d,
    ;
    let row = h * d;
    assert((t + 1) * row <= n * row && (t + 1) * row == t * row + row && 0 <= t * row) by (
        nonlinear_arith)
        requires
            0 <= t < n,
            0 <= row,
    ;
}

proof fn lemma_mixed<K: Kernels>(
    k: &K,
    kv: KvCache<K::Num>,
    layer: int,
    g: int,
    j: int,
    shares: Seq<K::Num>,
    n: int,
    acc: K::Num,
    out: K::Num,
)
    requires
        0 <= n,
        mixed(k, kv, layer, g, j, shares, n, acc),
        call_ensures(
            K::mix,
            (
                k,
                acc,
                shares[n],
                head_of(kv.value_buf(layer), kv.row_len(), kv.dim(), n, g)[j],
            ),
            out,
        ),
    ensures
        mixed(k, kv, layer, g, j, shares, n + 1, out),
{
    let sums = choose|sums: Seq<K::Num>| #[trigger]
        running_sums(k, kv, layer, g, j, shares, sums) && sums.len() == n + 1 && sums[n] == acc;
    let more = sums.push(out);
    assert forall|t: int| 0 <= t < more.len() - 1 implies call_ensures(
        K::mix,
        (
            k,
            #[trigger] more[t],
            shares[t],
            head_of(kv.value_buf(layer), kv.row_len(), kv.dim(), t, g)[j],
        ),
        more[t + 1],
    ) by {
        assert(more[t] == sums[t]);
    }
    assert(running_sums(k, kv, layer, g, j, shares, more));
}

/// The values of kv head `g`, taken by shares.
fn mix_values<K: Kernels>(
    k: &K,
    kv: &KvCache<K::Num>,
    layer: usize,
    g: usize,
    dim: usize,
    shares: &Vec<K::Num>,
) -> (out: Vec<K::Num>)
    requires
        kv.wf(),
        layer < kv.layers(),
        g < kv.heads(),
        dim == kv.dim(),
        shares@.len() == kv.row_count(layer as int),
    ensures
        out@.len() == dim,
        forall|j: int|
            0 <= j < dim ==> mixed(
                k,
                *kv,
                layer as int,
                g as int,
                j,
                shares@,
                shares@.len() as int,
                #[trigger] out@[j],
            ),
{
    let mut out: Vec<K::Num> = Vec::new();
    while out.len() < dim
        invariant
            out@.len() <= dim,
            forall|j: int|
                0 <= j < out@.len() ==> mixed(
                    k,
                    *kv,
                    layer as int,
                    g as int,
                    j,
                    shares@,
                    0,
                    #[trigger] out@[j],
                ),
        decreases dim - out@.len(),
    {
        let z: K::Num = k.zero();
        assert(running_sums(
            k,
            *kv,
            layer as int,
            g as int,
            out@.len() as int,
            shares@,
            seq![z],
        ));
        out.push(z);
    }
    let n: usize = kv.rows(layer);
    let mut t: usize = 0;
    while t < n
        invariant
            kv.wf(),
            layer < kv.layers(),
            g < kv.heads(),
            dim == kv.dim(),
            n == kv.row_count(layer as int),
            n == shares@.len(),
            n * kv.row_len() <= kv.value_buf(layer as int).len(),
            t <= n,
            out@.len() == dim,
            forall|j: int|
                0 <= j < dim ==> mixed(
                    k,
                    *kv,
                    layer as int,
                    g as int,
                    j,
                    shares@,
                    t as int,
                    #[trigger] out@[j],
                ),
        decreases n - t,
    {
        proof {
            lemma_row_fits(*kv, t as int, n as int, g as int);
        }
        let value: &[K::Num] = kv.value(layer, t, g);
        let mut j: usize = 0;
        while j < dim
            invariant
                value@ == head_of(
                    kv.value_buf(layer as int),
                    kv.row_len(),
                    kv.dim(),
                    t as int,
                    g as int,
                ),
                value@.len() == dim,
                t < n,
                n == shares@.len(),
                j <= dim,
                out@.len() == dim,
                forall|i: int|
                    0 <= i < dim ==> mixed(
                        k,
                        *kv,
                        layer as int,
                        g as int,
                        i,
                        shares@,
                        if i < j {
                            t + 1
                        } else {
                            t as int
                        },
                        #[trigger] out@[i],
                    ),
            decreases dim - j,
        {
            let acc: K::Num = out[j];
            let next: K::Num = k.mix(acc, shares[t], value[j]);
            proof {
                lemma_mixed(
                    k,
                    *kv,
                    layer as int,
                    g as int,
                    j as int,
                    shares@,
                    t as int,
                    acc,
                    next,
                );
            }
            out.set(j, next);
            j += 1;
        }
        t += 1;
    }
    out
}

/// Causal attention over the cache of a layer: each query head reads the kv
/// head that it shares.
pub fn attend<K: Kernels>(
    k: &K,
    c: &Config,
    kv: &KvCache<K::Num>,
    layer: usize,
    q: &[K::Num],
) -> (out: Vec<K::Num>)
    requires
        c.heads_divide(),
        kv.wf(),
        layer < kv.layers(),
        kv.heads() == c.n_head_kv,
        kv.dim() == c.head_len(),
        q@.len() == c.n_embd,
    ensures
        attended(k, *c, *kv, layer as int, q@, out@),
{
    let dim: usize = c.head_dim();
    let mut out: Vec<K::Num> = Vec::new();
    let mut h: usize = 0;
    assert(0 * c.head_len() == 0);
    while h < c.n_head
        invariant
            c.heads_divide(),
            kv.wf(),
            layer < kv.layers(),
            kv.heads() == c.n_head_kv,
            kv.dim() == c.head_len(),
            q@.len() == c.n_embd,
            dim == c.head_len(),
            h <= c.n_head,
            out@.len() == h * c.head_len(),
            forall|i: int|
                0 <= i < h ==> head_attended(
                    k,
                    *c,
                    *kv,
                    layer as int,
                    i,
                    #[trigger] query_head(*c, q@, i),
                    query_head(*c, out@, i),
                ),
        decreases c.n_head - h,
    {
        let g: usize = c.kv_head(h);
        let (start, end) = c.head_span(h);
        let qh: &[K::Num] = slice_subrange(q, start, end);
        assert(qh@ == query_head(*c, q@, h as int));
        let shares: Vec<K::Num> = head_shares(k, kv, layer, g, qh);
        let mut part: Vec<K::Num> = mix_values(k, kv, layer, g, dim, &shares);
        let ghost (before, one) = (out@, part@);
        proof {
            assert(head_attended(k, *c, *kv, layer as int, h as int, qh@, one));
        }
        out.append(&mut part);
        proof {
            lemma_heads_joined(k, *c, *kv, layer as int, h as int, q@, before, one);
            assert((h + 1) * c.head_len() == h * c.head_len() + c.head_len()) by (nonlinear_arith);
        }
        h += 1;
    }
    proof {
        lemma_kv_fits(*c);
    }
    let ghost heads = out@;
    while out.len() < q.len()
        invariant
            heads.len() == c.n_head * c.head_len(),
            heads.len() <= out@.len() <= q@.len(),
            out@.take(heads.len() as int) == heads,
            forall|j: int|
                heads.len() <= j < out@.len() ==> call_ensures(K::zero, (k,), #[trigger] out@[j]),
        decreases q@.len() - out@.len(),
    {
        let ghost now = out@;
        out.push(k.zero());
        assert(out@.take(heads.len() as int) =~= now.take(heads.len() as int));
    }
    proof {
        assert forall|i: int| 0 <= i < c.n_head implies head_attended(
            k,
            *c,
            *kv,
            layer as int,
            i,
            #[trigger] query_head(*c, q@, i),
            query_head(*c, out@, i),
        ) by {
            lemma_head_inside(*c, i, c.n_head as int);
            assert(query_head(*c, out@, i) =~= query_head(*c, heads, i)) by {
                assert(heads =~= out@.take(heads.len() as int));
            }
        }
    }
    out
}

/// The numbers of a query head lie before the heads behind it.
pub(crate) proof fn lemma_head_inside(c: Config, i: int, h: int)
    requires
        c.n_head > 0,
        0 <= i < h,
    ensures
        0 <= i * c.head_len(),
        i * c.head_len() + c.head_len() <= h * c.head_len(),
{
    let d = c.head_len();
    assert(0 <= d) by (nonlinear_arith)
        requires
            d == c.n_embd as int / c.n_head as int,
            c.n_head > 0,
    ;
    assert(0 <= i * d && i * d + d <= h * d) by (nonlinear_arith)
        requires
            0 <= i < h,
            0 <= d,
    ;
}

/// The heads read so far, with one more behind them.
proof fn lemma_heads_joined<K: Kernels>(
    k: &K,
    c: Config,
    kv: KvCache<K::Num>,
    layer: int,
    h: int,
    q: Seq<K::Num>,
    before: Seq<K::Num>,
    one: Seq<K::Num>,
)
    requires
        c.n_head > 0,
        0 <= h,
        before.len() == h * c.head_len(),
        one.len() == c.head_len(),
        head_attended(k, c, kv, layer, h, query_head(c, q, h), one),
        forall|i: int|
            0 <= i < h ==> head_attended(
                k,
                c,
                kv,
                layer,
                i,
                #[trigger] query_head(c, q, i),
                query_head(c, before, i),
            ),
    ensures
        forall|i: int|
            0 <= i < h + 1 ==> head_attended(
                k,
                c,
                kv,
                layer,
                i,
                #[trigger] query_head(c, q, i),
                query_head(c, before + one, i),
            ),
{
    assert forall|i: int| 0 <= i < h + 1 implies head_attended(
        k,
        c,
        kv,
        layer,
        i,
        #[trigger] query_head(c, q, i),
        query_head(c, before + one, i),
    ) by {
        if i < h {
            lemma_head_inside(c, i, h);
            assert(query_head(c, before + one, i) =~= query_head(c, before, i));
        } else {
            assert(query_head(c, before + one, i) =~= one);
        }
    }
}

} // verus!
