//! Two models, one in which query heads share kv heads, and one in which each
//! has a copy of the head that it would share: they give the same logits.
//!
//! This holds of arithmetic that always gives the same, and multiplies matrices
//! row by row.

use vstd::prelude::*;

use crate::kv_cache::{append_adds_a_row, appended, length_counts_rows, row_of, KvCache};
use crate::math::kernels::Kernels;
use crate::math::quant::product;
use crate::math::rope::{in_pairs, pair_of, rotated};
use crate::math::steady::{
    lemma_same_gated, lemma_same_norm, lemma_same_product, lemma_same_rotated,
    lemma_same_row_product, lemma_same_sum, lemma_same_values, same_row, steady,
};
use crate::model::attention::lemma_head_inside;
use crate::model::attention_laws::{
    lemma_place_in_head, lemma_same_attended, repeats, shared_heads_attend_as_copies, unshared,
};
use crate::model::config::{lemma_kv_fits, query_heads_share_evenly, replicated, Config};
use crate::model::decode::{cache_before, fed, Fed};
use crate::model::forward::{decoded, forwarded, only, Buffers, Moment, Pass};
use crate::model::forward_laws::{
    lemma_multiplied, lemma_query_length, lemma_row_lengths, multiplies_rows, with_cache,
};
use crate::model::llama::Model;
use crate::model::plan::{
    layer_plan, layers_append_then_attend, lemma_layer_count, lemma_plan_op, mat_in, mat_of,
    norm_in, norm_of, plan_of, Buf, Mat, Norm, Op,
};
use crate::model::weights::{weights_of, LayerView, MatrixView, WeightsView};

verus! {

/// The place in a row of kv heads that place `j` repeats.
pub open spec fn leader(c: Config, j: int) -> int {
    c.shared_head(j / c.head_len()) * c.head_len() + j % c.head_len()
}

proof fn lemma_leader(c: Config, j: int)
    requires
        c.heads_divide(),
        0 <= j < c.n_head * c.head_len(),
    ensures
        0 <= leader(c, j) < c.kv_len(),
        c.head_len() > 0,
        leader(c, j) / c.head_len() == c.shared_head(j / c.head_len()),
        leader(c, j) % c.head_len() == j % c.head_len(),
        0 <= j / c.head_len() < c.n_head,
        0 <= c.shared_head(j / c.head_len()) < c.n_head_kv,
{
    let d = c.head_len();
    lemma_kv_fits(c);
    lemma_head_inside(c, 0, 1);
    lemma_place_in_head(d, c.n_head as int, j);
    query_heads_share_evenly(c, j / d);
    let (s, o, n) = (c.shared_head(j / d), j % d, c.n_head_kv as int);
    assert(0 <= s * d && s * d + d <= n * d) by (nonlinear_arith)
        requires
            0 <= s < n,
            0 <= d,
    ;
    vstd::arithmetic::div_mod::lemma_fundamental_div_mod_converse(s * d + o, d, s, o);
}

/// Whether each of the heads of `w` is a copy of the head of `v` that it would
/// share.
pub open spec fn heads_copied(c: Config, v: MatrixView, w: MatrixView) -> bool {
    forall|m: int|
        0 <= m < c.n_head * c.head_len() ==> #[trigger] same_row(w, m, v, leader(c, m))
}

/// Whether the weights of a layer are the same, but for the kv heads, which are
/// copied.
pub open spec fn layer_copied(c: Config, v: LayerView, w: LayerView) -> bool {
    &&& v.attn_norm == w.attn_norm
    &&& v.attn_q == w.attn_q
    &&& heads_copied(c, v.attn_k, w.attn_k)
    &&& heads_copied(c, v.attn_v, w.attn_v)
    &&& v.attn_output == w.attn_output
    &&& v.ffn_norm == w.ffn_norm
    &&& v.ffn_gate == w.ffn_gate
    &&& v.ffn_up == w.ffn_up
    &&& v.ffn_down == w.ffn_down
}

/// Whether the weights `w` are the weights `v` with every kv head copied for
/// the query heads that share it.
pub open spec fn weights_copied(c: Config, v: WeightsView, w: WeightsView) -> bool {
    &&& v.token_embd == w.token_embd
    &&& v.output_norm == w.output_norm
    &&& v.output == w.output
    &&& forall|l: int| 0 <= l < c.n_layer ==> layer_copied(c, #[trigger] v.layers[l], w.layers[l])
}

/// Whether a row of kv heads was set, and the other is its repetition; or
/// neither was set.
spec fn row_copied<T>(c: Config, x: Seq<T>, y: Seq<T>) -> bool {
    ||| x.len() == c.kv_len() && y == replicated(c, x)
    ||| x.len() == 0 && y.len() == 0
}

/// Whether the buffers of two passes are the same, but for the kv heads.
spec fn alike<T>(c: Config, a: Buffers<T>, b: Buffers<T>) -> bool {
    &&& forall|x: Buf| x != Buf::K && x != Buf::V ==> #[trigger] a.at(x) == b.at(x)
    &&& row_copied(c, a.at(Buf::K), b.at(Buf::K))
    &&& row_copied(c, a.at(Buf::V), b.at(Buf::V))
}

/// Whether `y` has the `n` rows of `x`, with every kv head repeated.
pub open spec fn rows_repeat<T>(c: Config, x: Seq<T>, y: Seq<T>, n: int) -> bool {
    let (row, wide) = (c.kv_len(), c.n_head * c.head_len());
    &&& x.len() == n * row
    &&& y.len() == n * wide
    &&& forall|t: int|
        0 <= t < n ==> #[trigger] row_of(y, wide, t) == replicated(c, row_of(x, row, t))
}

/// Whether the `n` rows of a layer of `b` are those of `a`, with every kv head
/// repeated.
pub open spec fn layer_repeats<T>(c: Config, a: KvCache<T>, b: KvCache<T>, l: int, n: int) -> bool {
    &&& 0 <= n
    &&& rows_repeat(c, a.key_buf(l), b.key_buf(l), n)
    &&& rows_repeat(c, a.value_buf(l), b.value_buf(l), n)
}

/// Whether the rows of a layer of `b` are those of `a`, with every kv head
/// repeated.
pub open spec fn same_rows<T>(c: Config, a: KvCache<T>, b: KvCache<T>, l: int) -> bool {
    exists|n: int| layer_repeats(c, a, b, l, n)
}

/// Whether the cache `b` is the cache `a` with every kv head repeated.
pub open spec fn cache_copied<T>(c: Config, a: KvCache<T>, b: KvCache<T>) -> bool {
    &&& a.layers() == c.n_layer && b.layers() == c.n_layer
    &&& a.row_len() == c.kv_len() && a.dim() == c.head_len()
    &&& b.row_len() == c.n_head * c.head_len() && b.dim() == c.head_len()
    &&& forall|l: int| 0 <= l < c.n_layer ==> #[trigger] same_rows(c, a, b, l)
}

/// One more row.
proof fn lemma_rows_more<T>(c: Config, x: Seq<T>, y: Seq<T>, n: int, r: Seq<T>, s: Seq<T>)
    requires
        0 <= n,
        rows_repeat(c, x, y, n),
        r.len() == c.kv_len(),
        s == replicated(c, r),
        0 <= c.n_head * c.head_len(),
    ensures
        rows_repeat(c, x + r, y + s, n + 1),
{
    let (row, wide) = (c.kv_len(), c.n_head * c.head_len());
    append_adds_a_row(x, r, row, n, n);
    append_adds_a_row(y, s, wide, n, n);
    assert forall|t: int| 0 <= t < n + 1 implies #[trigger] row_of(y + s, wide, t) == replicated(
        c,
        row_of(x + r, row, t),
    ) by {
        append_adds_a_row(x, r, row, n, t);
        append_adds_a_row(y, s, wide, n, t);
        if t < n {
            assert(row_of(y, wide, t) == replicated(c, row_of(x, row, t)));
        }
    }
}

/// A layer of copied rows is one of repeated kv heads.
proof fn lemma_repeats<T>(c: Config, a: KvCache<T>, b: KvCache<T>, l: int)
    requires
        c.heads_divide(),
        cache_copied(c, a, b),
        0 <= l < c.n_layer,
    ensures
        repeats(c, a, b, l),
{
    assert(same_rows(c, a, b, l));
    let n = choose|n: int| layer_repeats(c, a, b, l, n);
    let (row, d, kv, nh) = (c.kv_len(), c.head_len(), c.n_head_kv as int, c.n_head as int);
    let wide = nh * d;
    lemma_kv_fits(c);
    lemma_head_inside(c, 0, 1);
    if row == 0 {
        assert(d == 0) by (nonlinear_arith)
            requires
                kv * d == 0,
                kv > 0,
                d >= 0,
        ;
        assert(wide == 0) by (nonlinear_arith)
            requires
                d == 0,
                wide == nh * d,
        ;
        assert(n * row == 0 && n * wide == 0) by (nonlinear_arith)
            requires
                row == 0,
                wide == 0,
        ;
        assert(0 * row == 0 && 0 * wide == 0);
    } else {
        assert(d > 0) by (nonlinear_arith)
            requires
                kv * d != 0,
                d >= 0,
        ;
        assert(row > 0 && wide > 0) by (nonlinear_arith)
            requires
                row == kv * d,
                wide == nh * d,
                d > 0,
                kv > 0,
                nh > 0,
        ;
        length_counts_rows(n, row);
        length_counts_rows(n, wide);
    }
}

/// The product with copied heads repeats the product.
proof fn lemma_copied_product<K: Kernels>(
    k: &K,
    c: Config,
    v: MatrixView,
    w: MatrixView,
    x: Seq<K::Num>,
    a: Seq<K::Num>,
    b: Seq<K::Num>,
)
    requires
        steady(k),
        c.heads_divide(),
        heads_copied(c, v, w),
        product(k, v, x, a),
        product(k, w, x, b),
        a.len() == c.kv_len(),
        b.len() == c.n_head * c.head_len(),
    ensures
        b == replicated(c, a),
{
    assert forall|m: int| 0 <= m < b.len() implies b[m] == a[leader(c, m)] by {
        lemma_leader(c, m);
        assert(same_row(w, m, v, leader(c, m)));
        lemma_same_row_product(k, w, m, v, leader(c, m), x, b[m], a[leader(c, m)]);
    }
    assert(b =~= replicated(c, a));
}

/// The last place of a head of an odd size belongs to no pair.
proof fn lemma_unpaired(d: int, heads: int, j: int)
    requires
        d > 0,
        j % d >= d / 2 * 2,
    ensures
        !in_pairs(d, heads, j),
{
    if in_pairs(d, heads, j) {
        let (h, i) = choose|h: int, i: int|
            #![trigger pair_of(d, h, i)]
            0 <= h < heads && 0 <= i < d / 2 && (j == pair_of(d, h, i).0 || j == pair_of(
                d,
                h,
                i,
            ).1);
        let o = j - h * d;
        assert(0 <= o < d);
        vstd::arithmetic::div_mod::lemma_fundamental_div_mod_converse(j, d, h, o);
    }
}

/// Rotating repeated heads repeats the rotated heads.
proof fn lemma_copied_rotation<K: Kernels>(
    k: &K,
    c: Config,
    pos: usize,
    base: u32,
    x: Seq<K::Num>,
    y: Seq<K::Num>,
    a: Seq<K::Num>,
    b: Seq<K::Num>,
)
    requires
        steady(k),
        c.heads_divide(),
        x.len() == c.kv_len(),
        y == replicated(c, x),
        rotated(k, pos, c.head_len() as usize, base, c.n_head_kv as int, x, a),
        rotated(k, pos, c.head_len() as usize, base, c.n_head as int, y, b),
    ensures
        b == replicated(c, a),
{
    let d = c.head_len();
    lemma_kv_fits(c);
    lemma_head_inside(c, 0, 1);
    lemma_head_len(c);
    assert(0 <= c.n_head * d) by (nonlinear_arith)
        requires
            0 <= d,
    ;
    assert forall|j: int| 0 <= j < b.len() implies b[j] == a[leader(c, j)] by {
        lemma_leader(c, j);
        lemma_place_in_head(d, c.n_head as int, j);
        let (h, o) = (j / d, j % d);
        let s = c.shared_head(h);
        if o < d / 2 * 2 {
            let i = o / 2;
            let (p, q) = pair_of(d, h, i);
            let (e, f) = pair_of(d, s, i);
            lemma_in_head(c, h, 2 * i);
            lemma_in_head(c, h, 2 * i + 1);
            assert(y[p] == x[e] && y[q] == x[f]);
            assert(call_ensures(
                K::rotate,
                (k, pos, i as usize, d as usize, base, (x[e], x[f])),
                (a[e], a[f]),
            ));
            assert(call_ensures(
                K::rotate,
                (k, pos, i as usize, d as usize, base, (y[p], y[q])),
                (b[p], b[q]),
            ));
            reveal(steady);
            assert((a[e], a[f]) == (b[p], b[q]));
        } else {
            lemma_unpaired(d, c.n_head as int, j);
            lemma_unpaired(d, c.n_head_kv as int, leader(c, j));
            assert(b[j] == y[j]);
            assert(a[leader(c, j)] == x[leader(c, j)]);
        }
    }
    assert(b =~= replicated(c, a));
}

/// A place in a head, and what it repeats.
proof fn lemma_in_head(c: Config, h: int, o: int)
    requires
        c.heads_divide(),
        0 <= h < c.n_head,
        0 <= o < c.head_len(),
    ensures
        0 <= h * c.head_len() + o < c.n_head * c.head_len(),
        leader(c, h * c.head_len() + o) == c.shared_head(h) * c.head_len() + o,
        0 <= c.shared_head(h) * c.head_len() + o < c.kv_len(),
{
    let d = c.head_len();
    lemma_head_inside(c, h, c.n_head as int);
    vstd::arithmetic::div_mod::lemma_fundamental_div_mod_converse(h * d + o, d, h, o);
    lemma_leader(c, h * d + o);
}

proof fn lemma_head_len(c: Config)
    requires
        c.heads_divide(),
    ensures
        0 <= c.head_len() <= usize::MAX,
{
    let (e, n) = (c.n_embd as int, c.n_head as int);
    assert(0 <= e / n <= e) by (nonlinear_arith)
        requires
            0 <= e,
            n > 0,
    ;
}

/// Whether an operation reads and sets no kv heads, but for the cache.
spec fn is_plain(c: Config, op: Op) -> bool {
    let kv = |x: Buf| x == Buf::K || x == Buf::V;
    match op {
        Op::Embed => true,
        Op::RmsNorm { norm, src, dst } => norm_in(c.n_layer as int, norm) && !kv(src) && !kv(dst),
        Op::MatVec { mat, src, dst } => {
            &&& mat_in(c.n_layer as int, mat)
            &&& !(mat is K) && !(mat is V)
            &&& !kv(src) && !kv(dst)
        },
        Op::Rope { buf, .. } => !kv(buf),
        Op::Append { .. } => false,
        Op::Attend { layer } => layer < c.n_layer,
        Op::Accumulate { src, dst } => !kv(src) && !kv(dst),
        Op::SwiGlu => true,
    }
}

/// Whether two operations stand at the same place of the two plans.
spec fn is_match(c: Config, a: Op, b: Op) -> bool {
    match a {
        Op::MatVec { mat: Mat::K(l), src: Buf::Normed, dst: Buf::K } => l < c.n_layer && b == a,
        Op::MatVec { mat: Mat::V(l), src: Buf::Normed, dst: Buf::V } => l < c.n_layer && b == a,
        Op::Rope { buf: Buf::K, heads } => heads == c.n_head_kv && b == (Op::Rope {
            buf: Buf::K,
            heads: c.n_head,
        }),
        Op::Append { layer } => layer < c.n_layer && b == a,
        _ => is_plain(c, a) && b == a,
    }
}

proof fn lemma_layer_matches(c: Config, l: usize, i: int)
    requires
        l < c.n_layer,
        0 <= i < 16,
    ensures
        is_match(c, layer_plan(c, l)[i], layer_plan(unshared(c), l)[i]),
{
}

proof fn lemma_plan_matches(c: Config, i: int)
    requires
        0 <= i < plan_of(c).len(),
    ensures
        plan_of(c).len() == plan_of(unshared(c)).len(),
        is_match(c, plan_of(c)[i], plan_of(unshared(c))[i]),
{
    let u = unshared(c);
    lemma_plan_op(c, i);
    lemma_plan_op(u, 0);
    lemma_plan_op(u, i);
    if 0 < i < 1 + 16 * c.n_layer {
        lemma_layer_matches(c, ((i - 1) / 16) as usize, (i - 1) % 16);
    } else if i > 0 {
        let o = i - (1 + 16 * c.n_layer);
        assert(o == 0 || o == 1);
    }
}

/// Whether two passes are the same but for the kv heads, which the second one
/// has copies of.
spec fn twins<'p, 'a, 'q, 'b, K: Kernels>(p: Pass<'p, 'a, K>, r: Pass<'q, 'b, K>) -> bool {
    &&& steady(p.kernels)
    &&& multiplies_rows(p.kernels)
    &&& p.cfg.heads_divide()
    &&& r.cfg == unshared(p.cfg)
    &&& r.kernels == p.kernels
    &&& r.token == p.token
    &&& r.pos == p.pos
    &&& p.weights@.layers.len() == p.cfg.n_layer
    &&& r.weights@.layers.len() == p.cfg.n_layer
    &&& weights_copied(p.cfg, p.weights@, r.weights@)
}

/// Two passes whose buffers are alike make the same of an operation that does
/// not touch the kv heads.
proof fn lemma_plain_made<'p, 'a, 'q, 'b, K: Kernels>(
    p: Pass<'p, 'a, K>,
    r: Pass<'q, 'b, K>,
    op: Op,
    a: Moment<K::Num>,
    b: Moment<K::Num>,
    x: Seq<K::Num>,
    y: Seq<K::Num>,
)
    requires
        twins(p, r),
        is_plain(p.cfg, op),
        alike(p.cfg, a.bufs, b.bufs),
        cache_copied(p.cfg, a.kv, b.kv),
        op is Attend ==> a.bufs.at(Buf::Q).len() == p.cfg.n_embd,
        p.made(op, a, x),
        r.made(op, b, y),
    ensures
        x == y,
{
    let (k, c) = (p.kernels, p.cfg);
    match op {
        Op::Embed => {
            lemma_same_values(k, p.weights.token_embd@, p.token as int, x, y);
        },
        Op::RmsNorm { norm, src, .. } => {
            assert(norm_of(p.weights@, norm) == norm_of(r.weights@, norm)) by {
                lemma_norms_same(c, p.weights@, r.weights@, norm);
            }
            assert(a.bufs.at(src) == b.bufs.at(src));
            lemma_same_norm(
                k,
                a.bufs.at(src),
                norm_of(p.weights@, norm),
                c.rms_eps,
                x,
                y,
            );
        },
        Op::MatVec { mat, src, .. } => {
            lemma_mats_same(c, p.weights@, r.weights@, mat);
            lemma_multiplied(p, mat, src, a, x);
            lemma_multiplied(r, mat, src, b, y);
            assert(a.bufs.at(src) == b.bufs.at(src));
            lemma_same_product(k, mat_of(p.weights@, mat), a.bufs.at(src), x, y);
        },
        Op::Rope { buf, heads } => {
            assert(a.bufs.at(buf) == b.bufs.at(buf));
            lemma_same_rotated(
                k,
                p.pos,
                c.head_len() as usize,
                c.rope_freq_base,
                heads as int,
                a.bufs.at(buf),
                x,
                y,
            );
        },
        Op::Append { .. } => {},
        Op::Attend { layer } => {
            let q = a.bufs.at(Buf::Q);
            assert(q == b.bufs.at(Buf::Q));
            lemma_repeats(c, a.kv, b.kv, layer as int);
            shared_heads_attend_as_copies(k, c, a.kv, b.kv, layer as int, q, y);
            lemma_same_attended(k, c, a.kv, layer as int, q, x, y);
        },
        Op::Accumulate { src, dst } => {
            assert(a.bufs.at(src) == b.bufs.at(src) && a.bufs.at(dst) == b.bufs.at(dst));
            lemma_same_sum(k, a.bufs.at(dst), a.bufs.at(src), x, y);
        },
        Op::SwiGlu => {
            assert(a.bufs.at(Buf::Gate) == b.bufs.at(Buf::Gate));
            assert(a.bufs.at(Buf::Up) == b.bufs.at(Buf::Up));
            lemma_same_gated(k, a.bufs.at(Buf::Gate), a.bufs.at(Buf::Up), x, y);
        },
    }
}

proof fn lemma_norms_same(c: Config, v: WeightsView, w: WeightsView, n: Norm)
    requires
        weights_copied(c, v, w),
        norm_in(c.n_layer as int, n),
    ensures
        norm_of(v, n) == norm_of(w, n),
{
    match n {
        Norm::Attn(l) => assert(layer_copied(c, v.layers[l as int], w.layers[l as int])),
        Norm::Ffn(l) => assert(layer_copied(c, v.layers[l as int], w.layers[l as int])),
        Norm::Output => {},
    }
}

proof fn lemma_mats_same(c: Config, v: WeightsView, w: WeightsView, m: Mat)
    requires
        weights_copied(c, v, w),
        mat_in(c.n_layer as int, m),
        !(m is K),
        !(m is V),
    ensures
        mat_of(v, m) == mat_of(w, m),
{
    match m {
        Mat::Q(l) => assert(layer_copied(c, v.layers[l as int], w.layers[l as int])),
        Mat::AttnOutput(l) => assert(layer_copied(c, v.layers[l as int], w.layers[l as int])),
        Mat::Gate(l) => assert(layer_copied(c, v.layers[l as int], w.layers[l as int])),
        Mat::Up(l) => assert(layer_copied(c, v.layers[l as int], w.layers[l as int])),
        Mat::Down(l) => assert(layer_copied(c, v.layers[l as int], w.layers[l as int])),
        _ => {},
    }
}

/// A plain operation keeps two passes alike.
proof fn lemma_plain_step<'p, 'a, 'q, 'b, K: Kernels>(
    p: Pass<'p, 'a, K>,
    r: Pass<'q, 'b, K>,
    op: Op,
    a: Moment<K::Num>,
    b: Moment<K::Num>,
    a2: Moment<K::Num>,
    b2: Moment<K::Num>,
)
    requires
        twins(p, r),
        is_plain(p.cfg, op),
        alike(p.cfg, a.bufs, b.bufs),
        cache_copied(p.cfg, a.kv, b.kv),
        op is Attend ==> a.bufs.at(Buf::Q).len() == p.cfg.n_embd,
        p.stepped(op, a, a2),
        r.stepped(op, b, b2),
    ensures
        alike(p.cfg, a2.bufs, b2.bufs),
        cache_copied(p.cfg, a2.kv, b2.kv),
{
    let t = p.target(op)->0;
    lemma_plain_made(p, r, op, a, b, a2.bufs.at(t), b2.bufs.at(t));
    assert(t != Buf::K && t != Buf::V);
    assert(a2.bufs.at(Buf::K) == a.bufs.at(Buf::K) && a2.bufs.at(Buf::V) == a.bufs.at(Buf::V));
    assert(b2.bufs.at(Buf::K) == b.bufs.at(Buf::K) && b2.bufs.at(Buf::V) == b.bufs.at(Buf::V));
    assert forall|x: Buf| x != Buf::K && x != Buf::V implies #[trigger] a2.bufs.at(x)
        == b2.bufs.at(x) by {
        if x != t {
            assert(a2.bufs.at(x) == a.bufs.at(x) && b2.bufs.at(x) == b.bufs.at(x));
        }
    }
}

/// Setting the buffer of one kind of kv head keeps two passes alike, if what
/// the second sets repeats what the first sets.
proof fn lemma_kv_set<T>(
    c: Config,
    a: Buffers<T>,
    b: Buffers<T>,
    a2: Buffers<T>,
    b2: Buffers<T>,
    t: Buf,
)
    requires
        alike(c, a, b),
        t == Buf::K || t == Buf::V,
        only(a, a2, t),
        only(b, b2, t),
        row_copied(c, a2.at(t), b2.at(t)),
    ensures
        alike(c, a2, b2),
{
    assert forall|x: Buf| x != Buf::K && x != Buf::V implies #[trigger] a2.at(x) == b2.at(x) by {
        assert(a2.at(x) == a.at(x) && b2.at(x) == b.at(x));
    }
    assert(t != Buf::K ==> a2.at(Buf::K) == a.at(Buf::K) && b2.at(Buf::K) == b.at(Buf::K));
    assert(t != Buf::V ==> a2.at(Buf::V) == a.at(Buf::V) && b2.at(Buf::V) == b.at(Buf::V));
}

/// A projection to kv heads keeps two passes alike.
proof fn lemma_kv_projected<'p, 'a, 'q, 'b, K: Kernels>(
    p: Pass<'p, 'a, K>,
    r: Pass<'q, 'b, K>,
    mat: Mat,
    dst: Buf,
    a: Moment<K::Num>,
    b: Moment<K::Num>,
    a2: Moment<K::Num>,
    b2: Moment<K::Num>,
)
    requires
        twins(p, r),
        mat_in(p.cfg.n_layer as int, mat),
        mat is K && dst == Buf::K || mat is V && dst == Buf::V,
        alike(p.cfg, a.bufs, b.bufs),
        cache_copied(p.cfg, a.kv, b.kv),
        p.stepped(Op::MatVec { mat, src: Buf::Normed, dst }, a, a2),
        r.stepped(Op::MatVec { mat, src: Buf::Normed, dst }, b, b2),
    ensures
        alike(p.cfg, a2.bufs, b2.bufs),
        cache_copied(p.cfg, a2.kv, b2.kv),
{
    let (k, c, x) = (p.kernels, p.cfg, a.bufs.at(Buf::Normed));
    assert(x == b.bufs.at(Buf::Normed));
    let (v, w) = (mat_of(p.weights@, mat), mat_of(r.weights@, mat));
    assert(heads_copied(c, v, w)) by {
        match mat {
            Mat::K(l) => assert(layer_copied(
                c,
                p.weights@.layers[l as int],
                r.weights@.layers[l as int],
            )),
            Mat::V(l) => assert(layer_copied(
                c,
                p.weights@.layers[l as int],
                r.weights@.layers[l as int],
            )),
            _ => {},
        }
    }
    lemma_multiplied(p, mat, Buf::Normed, a, a2.bufs.at(dst));
    lemma_multiplied(r, mat, Buf::Normed, b, b2.bufs.at(dst));
    lemma_copied_product(k, c, v, w, x, a2.bufs.at(dst), b2.bufs.at(dst));
    lemma_kv_set(c, a.bufs, b.bufs, a2.bufs, b2.bufs, dst);
}

/// Rotating the keys keeps two passes alike.
proof fn lemma_keys_rotated<'p, 'a, 'q, 'b, K: Kernels>(
    p: Pass<'p, 'a, K>,
    r: Pass<'q, 'b, K>,
    a: Moment<K::Num>,
    b: Moment<K::Num>,
    a2: Moment<K::Num>,
    b2: Moment<K::Num>,
)
    requires
        twins(p, r),
        alike(p.cfg, a.bufs, b.bufs),
        cache_copied(p.cfg, a.kv, b.kv),
        p.stepped(Op::Rope { buf: Buf::K, heads: p.cfg.n_head_kv }, a, a2),
        r.stepped(Op::Rope { buf: Buf::K, heads: p.cfg.n_head }, b, b2),
    ensures
        alike(p.cfg, a2.bufs, b2.bufs),
        cache_copied(p.cfg, a2.kv, b2.kv),
{
    let (x, y) = (a.bufs.at(Buf::K), b.bufs.at(Buf::K));
    if x.len() == p.cfg.kv_len() && y == replicated(p.cfg, x) {
        lemma_copied_rotation(
            p.kernels,
            p.cfg,
            p.pos,
            p.cfg.rope_freq_base,
            x,
            y,
            a2.bufs.at(Buf::K),
            b2.bufs.at(Buf::K),
        );
    }
    lemma_kv_set(p.cfg, a.bufs, b.bufs, a2.bufs, b2.bufs, Buf::K);
}

/// A row that was set is a copied one.
proof fn lemma_row_set<T>(c: Config, x: Seq<T>, y: Seq<T>)
    requires
        c.heads_divide(),
        row_copied(c, x, y),
        x.len() == c.kv_len(),
    ensures
        y == replicated(c, x),
        0 <= c.n_head * c.head_len(),
{
    let (d, kv, n) = (c.head_len(), c.n_head_kv as int, c.n_head as int);
    lemma_head_len(c);
    assert(0 <= n * d) by (nonlinear_arith)
        requires
            0 <= d,
            0 <= n,
    ;
    if c.kv_len() == 0 {
        assert(n * d == 0) by (nonlinear_arith)
            requires
                kv * d == 0,
                kv > 0,
        ;
        assert(y =~= replicated(c, x));
    }
}

/// Appending keeps the caches of two passes alike.
proof fn lemma_rows_appended<'p, 'a, 'q, 'b, K: Kernels>(
    p: Pass<'p, 'a, K>,
    r: Pass<'q, 'b, K>,
    layer: usize,
    a: Moment<K::Num>,
    b: Moment<K::Num>,
    a2: Moment<K::Num>,
    b2: Moment<K::Num>,
)
    requires
        twins(p, r),
        layer < p.cfg.n_layer,
        alike(p.cfg, a.bufs, b.bufs),
        cache_copied(p.cfg, a.kv, b.kv),
        a.bufs.at(Buf::K).len() == p.cfg.kv_len(),
        a.bufs.at(Buf::V).len() == p.cfg.kv_len(),
        p.stepped(Op::Append { layer }, a, a2),
        r.stepped(Op::Append { layer }, b, b2),
    ensures
        alike(p.cfg, a2.bufs, b2.bufs),
        cache_copied(p.cfg, a2.kv, b2.kv),
{
    let c = p.cfg;
    let (x, y) = (a.bufs.at(Buf::K), b.bufs.at(Buf::K));
    let (u, v) = (a.bufs.at(Buf::V), b.bufs.at(Buf::V));
    lemma_row_set(c, x, y);
    lemma_row_set(c, u, v);
    assert(appended(a.kv, a2.kv, layer as int, x, u));
    assert(appended(b.kv, b2.kv, layer as int, y, v));
    assert forall|l: int| 0 <= l < c.n_layer implies #[trigger] same_rows(c, a2.kv, b2.kv, l) by {
        assert(same_rows(c, a.kv, b.kv, l));
        let n = choose|n: int| layer_repeats(c, a.kv, b.kv, l, n);
        if l == layer {
            lemma_rows_more(c, a.kv.key_buf(l), b.kv.key_buf(l), n, x, y);
            lemma_rows_more(c, a.kv.value_buf(l), b.kv.value_buf(l), n, u, v);
            assert(layer_repeats(c, a2.kv, b2.kv, l, n + 1));
        } else {
            assert(a2.kv.key_buf(l) == a.kv.key_buf(l) && b2.kv.key_buf(l) == b.kv.key_buf(l));
            assert(layer_repeats(c, a2.kv, b2.kv, l, n));
        }
    }
}

/// Two passes stay alike from one moment to the next.
proof fn lemma_twins_step<'p, 'a, 'q, 'b, K: Kernels>(
    p: Pass<'p, 'a, K>,
    r: Pass<'q, 'b, K>,
    op: Op,
    other: Op,
    a: Moment<K::Num>,
    b: Moment<K::Num>,
    a2: Moment<K::Num>,
    b2: Moment<K::Num>,
)
    requires
        twins(p, r),
        is_match(p.cfg, op, other),
        alike(p.cfg, a.bufs, b.bufs),
        cache_copied(p.cfg, a.kv, b.kv),
        op is Append ==> a.bufs.at(Buf::K).len() == p.cfg.kv_len() && a.bufs.at(Buf::V).len()
            == p.cfg.kv_len(),
        op is Attend ==> a.bufs.at(Buf::Q).len() == p.cfg.n_embd,
        p.stepped(op, a, a2),
        r.stepped(other, b, b2),
    ensures
        alike(p.cfg, a2.bufs, b2.bufs),
        cache_copied(p.cfg, a2.kv, b2.kv),
{
    match op {
        Op::MatVec { mat: Mat::K(l), src: Buf::Normed, dst: Buf::K } => {
            lemma_kv_projected(p, r, Mat::K(l), Buf::K, a, b, a2, b2);
        },
        Op::MatVec { mat: Mat::V(l), src: Buf::Normed, dst: Buf::V } => {
            lemma_kv_projected(p, r, Mat::V(l), Buf::V, a, b, a2, b2);
        },
        Op::Rope { buf: Buf::K, .. } => {
            lemma_keys_rotated(p, r, a, b, a2, b2);
        },
        Op::Append { layer } => {
            lemma_rows_appended(p, r, layer, a, b, a2, b2);
        },
        _ => {
            lemma_plain_step(p, r, op, a, b, a2, b2);
        },
    }
}

/// Two passes stay alike from the start to moment `i`.
proof fn lemma_twins_run<'p, 'a, 'q, 'b, K: Kernels>(
    p: Pass<'p, 'a, K>,
    r: Pass<'q, 'b, K>,
    before: (KvCache<K::Num>, KvCache<K::Num>),
    after: (KvCache<K::Num>, KvCache<K::Num>),
    a: Seq<Moment<K::Num>>,
    b: Seq<Moment<K::Num>>,
    i: int,
)
    requires
        twins(p, r),
        cache_copied(p.cfg, before.0, before.1),
        p.ran(before.0, after.0, a),
        r.ran(before.1, after.1, b),
        0 <= i < a.len(),
        a.len() == b.len(),
    ensures
        alike(p.cfg, a[i].bufs, b[i].bufs),
        cache_copied(p.cfg, a[i].kv, b[i].kv),
    decreases i,
{
    let c = p.cfg;
    if i == 0 {
        assert forall|x: Buf| x != Buf::K && x != Buf::V implies #[trigger] a[0].bufs.at(x)
            == b[0].bufs.at(x) by {
            assert(a[0].bufs.at(x) =~= b[0].bufs.at(x));
        }
        assert(a[0].bufs.at(Buf::K).len() == 0 && b[0].bufs.at(Buf::K).len() == 0);
        assert(a[0].bufs.at(Buf::V).len() == 0 && b[0].bufs.at(Buf::V).len() == 0);
    } else {
        let j = i - 1;
        lemma_twins_run(p, r, before, after, a, b, j);
        lemma_plan_matches(c, j);
        layers_append_then_attend(c, j);
        let (op, other) = (plan_of(c)[j], plan_of(unshared(c))[j]);
        assert(p.stepped(plan_of(c)[j], a[j], a[j + 1]));
        assert(r.stepped(plan_of(r.cfg)[j], b[j], b[j + 1]));
        match op {
            Op::Append { layer } => {
                lemma_row_lengths(p, before.0, after.0, a, layer as int);
            },
            Op::Attend { layer } => {
                lemma_query_length(p, before.0, after.0, a, layer as int);
            },
            _ => {},
        }
        lemma_twins_step(p, r, op, other, a[j], b[j], a[i], b[i]);
    }
}

/// Whether model `m` is model `g` with every kv head copied for the query heads
/// that share it: the same hyperparameters but for the number of kv heads, and
/// the same weights but for the copies.
pub open spec fn model_copied<'a, 'b, T>(g: Model<'a, T>, m: Model<'b, T>) -> bool {
    &&& m.cfg == unshared(g.cfg)
    &&& match (weights_of(g.gguf, g.cfg), weights_of(m.gguf, m.cfg)) {
        (Ok(v), Ok(w)) => weights_copied(g.cfg, v, w),
        _ => false,
    }
}

/// A decode step of a model with copied heads gives the logits that the model
/// with shared heads gives, and keeps the caches alike.
pub proof fn copied_heads_decode_alike<'a, 'b, K: Kernels>(
    k: &K,
    g: Model<'a, K::Num>,
    m: Model<'b, K::Num>,
    token: u32,
    pos: usize,
    after: (KvCache<K::Num>, KvCache<K::Num>),
    logits: (Vec<K::Num>, Vec<K::Num>),
)
    requires
        steady(k),
        multiplies_rows(k),
        g.cfg.heads_divide(),
        model_copied(g, m),
        cache_copied(g.cfg, g.kv, m.kv),
        decoded(k, g, token, pos, after.0, Ok(logits.0)),
        decoded(k, m, token, pos, after.1, Ok(logits.1)),
    ensures
        logits.0@ == logits.1@,
        cache_copied(g.cfg, after.0, after.1),
{
    let (p, a) = choose|p: Pass<K>, a: Seq<Moment<K::Num>>| #[trigger]
        forwarded(g.gguf, p, g.kv, after.0, a, Ok(logits.0)) && p.is_for(k, g.cfg, token, pos);
    let (r, b) = choose|r: Pass<K>, b: Seq<Moment<K::Num>>| #[trigger]
        forwarded(m.gguf, r, m.kv, after.1, b, Ok(logits.1)) && r.is_for(k, m.cfg, token, pos);
    reveal(forwarded);
    lemma_layer_count(g.gguf, g.cfg, p.weights@);
    lemma_layer_count(m.gguf, m.cfg, r.weights@);
    lemma_plan_op(g.cfg, 0);
    lemma_plan_matches(g.cfg, 0);
    assert(twins(p, r));
    let i = a.len() - 1;
    lemma_twins_run(p, r, (g.kv, m.kv), after, a, b, i);
    assert(a[i].bufs.at(Buf::Logits) == b[i].bufs.at(Buf::Logits));
}

/// Sharing kv heads gives the logits that copies of them would give: fed the
/// same tokens from a fresh cache, a model in which query heads share kv heads
/// and one in which each has a copy of its own give the same logits behind
/// every token.
pub proof fn copied_heads_give_same_logits<'a, 'b, K: Kernels>(
    k: &K,
    g: Model<'a, K::Num>,
    m: Model<'b, K::Num>,
    ids: Seq<u32>,
    x: Seq<Fed<K::Num>>,
    y: Seq<Fed<K::Num>>,
    i: int,
)
    requires
        steady(k),
        multiplies_rows(k),
        model_copied(g, m),
        g.wf(),
        m.wf(),
        g.is_fresh(),
        m.is_fresh(),
        fed(k, g, ids, x),
        fed(k, m, ids, y),
        0 <= i < ids.len(),
    ensures
        x[i].logits@ == y[i].logits@,
        cache_copied(g.cfg, x[i].kv, y[i].kv),
    decreases i,
{
    if i == 0 {
        lemma_fresh_copied(g, m);
    } else {
        copied_heads_give_same_logits(k, g, m, ids, x, y, i - 1);
    }
    let (p, q) = (
        with_cache(g, cache_before(g, x, i)),
        with_cache(m, cache_before(m, y, i)),
    );
    assert(decoded(k, p, ids[i], i as usize, x[i].kv, Ok(x[i].logits)));
    assert(decoded(k, q, ids[i], i as usize, y[i].kv, Ok(y[i].logits)));
    copied_heads_decode_alike(
        k,
        p,
        q,
        ids[i],
        i as usize,
        (x[i].kv, y[i].kv),
        (x[i].logits, y[i].logits),
    );
}

/// Fresh caches are alike.
proof fn lemma_fresh_copied<'a, 'b, T>(g: Model<'a, T>, m: Model<'b, T>)
    requires
        m.cfg == unshared(g.cfg),
        g.wf(),
        m.wf(),
        g.is_fresh(),
        m.is_fresh(),
    ensures
        cache_copied(g.cfg, g.kv, m.kv),
{
    let c = g.cfg;
    assert forall|l: int| 0 <= l < c.n_layer implies #[trigger] same_rows(c, g.kv, m.kv, l) by {
        assert(0 <= l < g.kv.layers() && 0 <= l < m.kv.layers());
        assert(g.kv.key_buf(l) == Seq::<T>::empty() && m.kv.key_buf(l) == Seq::<T>::empty());
        assert(g.kv.value_buf(l) == Seq::<T>::empty() && m.kv.value_buf(l) == Seq::<T>::empty());
        assert(0 * c.kv_len() == 0 && 0 * (c.n_head * c.head_len()) == 0);
        assert(layer_repeats(c, g.kv, m.kv, l, 0));
    }
}

} // verus!
