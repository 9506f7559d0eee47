//! The forward pass: for every token, embedding, layers and output, over the
//! tensors that the file names and the numbers that its metadata states.

use vstd::prelude::*;

use crate::gguf::format::MetaView;
use crate::gguf::GgufFile;
use crate::kv_cache::KvCache;
use crate::laws::files::{lemma_weights, weights_are_named};
use crate::laws::steps::{
    is_attention, is_gated, is_norm, is_row, is_sum, is_turned, lemma_attended, lemma_normed,
    lemma_rotated,
};
use crate::math::kernels::Kernels;
use crate::model::config::{config_of, Config, ConfigError};
use crate::model::forward::{bound_mat, decoded, forwarded, ForwardError, Moment, Pass};
use crate::model::forward_laws::{cache_during_pass, with_cache};
use crate::model::llama::Model;
use crate::model::plan::{
    buf_len, lemma_layer_count, lemma_layer_op, lemma_output_op, lemma_plan_op, mat_in, mat_of,
    norm_of, plan, plan_fits_weights, plan_of, Buf, Mat, Norm, Op,
};
use crate::model::weights::{
    weights_of, LayerView, Matrix, MatrixView, WeightError, Weights, WeightsView,
};

verus! {

/// The numbers that one layer goes through.
pub struct LayerTrace<T> {
    pub normed: Seq<T>,
    pub q: Seq<T>,
    pub k: Seq<T>,
    pub v: Seq<T>,
    pub turned_q: Seq<T>,
    pub turned_k: Seq<T>,
    pub att: Seq<T>,
    pub proj: Seq<T>,
    pub mid: Seq<T>,
    pub normed_mid: Seq<T>,
    pub gate: Seq<T>,
    pub up: Seq<T>,
    pub glu: Seq<T>,
    pub down: Seq<T>,
}

/// Whether `out` is what the arithmetic gives for a matrix and `x`.
pub open spec fn is_times<K: Kernels>(
    k: &K,
    mat: Mat,
    w: MatrixView,
    x: Seq<K::Num>,
    out: Seq<K::Num>,
) -> bool {
    exists|m: &Matrix<'_>, s: &[K::Num], r: Vec<K::Num>| #[trigger]
        call_ensures(K::matvec, (k, mat, m, s), r) && m@ == w && s@ == x && r@ == out
}

/// The precision of the norms that a file states, or 1e-5.
pub open spec fn stated_eps(g: GgufFile) -> u32 {
    match g.value("llama.attention.layer_norm_rms_epsilon"@) {
        Some(MetaView::F32(x)) => x,
        _ => 0x3727_C5AC,
    }
}

/// The base of the rotations that a file states, or 10000.
pub open spec fn stated_base(g: GgufFile) -> u32 {
    match g.value("llama.rope.freq_base"@) {
        Some(MetaView::F32(x)) => x,
        _ => 0x461C_4000,
    }
}

/// The first half of a layer: the norm, the three projections, the rotations of
/// queries and keys for the position, one row more of keys and values, what the
/// queries read of all rows, the projection of that, and the residual sum.
pub open spec fn attention_computes<K: Kernels>(
    k: &K,
    g: GgufFile,
    c: Config,
    w: LayerView,
    l: usize,
    pos: usize,
    keys: (Seq<K::Num>, Seq<K::Num>),
    values: (Seq<K::Num>, Seq<K::Num>),
    x: Seq<K::Num>,
    t: LayerTrace<K::Num>,
) -> bool {
    let (n_head, n_kv) = (c.n_head as int, c.n_head_kv as int);
    let d = c.n_embd as int / n_head;
    &&& is_norm(k, x, w.attn_norm, stated_eps(g), t.normed)
    &&& is_times(k, Mat::Q(l), w.attn_q, t.normed, t.q)
    &&& is_times(k, Mat::K(l), w.attn_k, t.normed, t.k)
    &&& is_times(k, Mat::V(l), w.attn_v, t.normed, t.v)
    &&& t.q.len() == c.n_embd
    &&& t.k.len() == n_kv * d
    &&& t.v.len() == n_kv * d
    &&& is_turned(k, pos, d, stated_base(g), n_head, t.q, t.turned_q)
    &&& is_turned(k, pos, d, stated_base(g), n_kv, t.k, t.turned_k)
    &&& keys.1 == keys.0 + t.turned_k
    &&& values.1 == values.0 + t.v
    &&& is_attention(k, n_head, n_kv, d, keys.1, values.1, t.turned_q, t.att)
    &&& is_times(k, Mat::AttnOutput(l), w.attn_output, t.att, t.proj)
    &&& t.proj.len() == c.n_embd
    &&& is_sum(k, x, t.proj, t.mid)
}

/// The second half of a layer: the norm, the two projections, the SwiGLU of them,
/// the projection of that, and the residual sum.
pub open spec fn feed_forward_computes<K: Kernels>(
    k: &K,
    g: GgufFile,
    c: Config,
    w: LayerView,
    l: usize,
    t: LayerTrace<K::Num>,
    out: Seq<K::Num>,
) -> bool {
    &&& is_norm(k, t.mid, w.ffn_norm, stated_eps(g), t.normed_mid)
    &&& is_times(k, Mat::Gate(l), w.ffn_gate, t.normed_mid, t.gate)
    &&& is_times(k, Mat::Up(l), w.ffn_up, t.normed_mid, t.up)
    &&& t.gate.len() == c.n_ff
    &&& t.up.len() == c.n_ff
    &&& is_gated(k, t.gate, t.up, t.glu)
    &&& is_times(k, Mat::Down(l), w.ffn_down, t.glu, t.down)
    &&& t.down.len() == c.n_embd
    &&& is_sum(k, t.mid, t.down, out)
}

/// Whether a pass for a token at a position goes through these numbers: `xs[0]`
/// is the embedding of the token, every layer leads from `xs[l]` to `xs[l + 1]`,
/// and the logits are the product of the output matrix and the last norm.
pub open spec fn pass_computes<K: Kernels>(
    k: &K,
    g: GgufFile,
    c: Config,
    token: u32,
    pos: usize,
    before: KvCache<K::Num>,
    after: KvCache<K::Num>,
    w: WeightsView,
    xs: Seq<Seq<K::Num>>,
    ts: Seq<LayerTrace<K::Num>>,
    last: Seq<K::Num>,
    logits: Seq<K::Num>,
) -> bool {
    &&& weights_are_named(g, c, w)
    &&& xs.len() == c.n_layer + 1
    &&& ts.len() == c.n_layer
    &&& is_row(k, w.token_embd, token as int, xs[0])
    &&& forall|l: int|
        0 <= l < c.n_layer ==> attention_computes(
            k,
            g,
            c,
            w.layers[l],
            l as usize,
            pos,
            (before.key_buf(l), after.key_buf(l)),
            (before.value_buf(l), after.value_buf(l)),
            xs[l],
            #[trigger] ts[l],
        )
    &&& forall|l: int|
        0 <= l < c.n_layer ==> feed_forward_computes(
            k,
            g,
            c,
            w.layers[l],
            l as usize,
            #[trigger] ts[l],
            xs[l + 1],
        )
    &&& is_norm(k, xs[c.n_layer as int], w.output_norm, stated_eps(g), last)
    &&& is_times(k, Mat::Output, w.output, last, logits)
    &&& logits.len() == c.vocab_size
}

/// Whether a pass for a token at a position leads from one cache to another, and
/// gives the logits.
pub open spec fn is_pass<K: Kernels>(
    k: &K,
    g: GgufFile,
    c: Config,
    token: u32,
    pos: usize,
    before: KvCache<K::Num>,
    after: KvCache<K::Num>,
    logits: Seq<K::Num>,
) -> bool {
    exists|
        w: WeightsView,
        xs: Seq<Seq<K::Num>>,
        ts: Seq<LayerTrace<K::Num>>,
        last: Seq<K::Num>,
    | #[trigger]
        pass_computes(k, g, c, token, pos, before, after, w, xs, ts, last, logits)
}

/// Whether the hyperparameters of a model are those that its file states; the
/// context alone may have been cut.
pub open spec fn states(g: GgufFile, c: Config) -> bool {
    exists|n: usize|
        #[trigger] config_of(g) == Ok::<Config, ConfigError>(Config { context_length: n, ..c })
}

pub(crate) proof fn lemma_layer_ops(c: Config, l: usize)
    requires
        l < c.n_layer,
    ensures
        plan_of(c).len() == 3 + 16 * c.n_layer,
        plan_of(c)[16 * l + 1] == (Op::RmsNorm {
            norm: Norm::Attn(l),
            src: Buf::X,
            dst: Buf::Normed,
        }),
        plan_of(c)[16 * l + 2] == (Op::MatVec { mat: Mat::Q(l), src: Buf::Normed, dst: Buf::Q }),
        plan_of(c)[16 * l + 3] == (Op::MatVec { mat: Mat::K(l), src: Buf::Normed, dst: Buf::K }),
        plan_of(c)[16 * l + 4] == (Op::MatVec { mat: Mat::V(l), src: Buf::Normed, dst: Buf::V }),
        plan_of(c)[16 * l + 5] == (Op::Rope { buf: Buf::Q, heads: c.n_head }),
        plan_of(c)[16 * l + 6] == (Op::Rope { buf: Buf::K, heads: c.n_head_kv }),
        plan_of(c)[16 * l + 7] == (Op::Append { layer: l }),
        plan_of(c)[16 * l + 8] == (Op::Attend { layer: l }),
        plan_of(c)[16 * l + 9] == (Op::MatVec {
            mat: Mat::AttnOutput(l),
            src: Buf::Att,
            dst: Buf::Proj,
        }),
        plan_of(c)[16 * l + 10] == (Op::Accumulate { src: Buf::Proj, dst: Buf::X }),
        plan_of(c)[16 * l + 11] == (Op::RmsNorm {
            norm: Norm::Ffn(l),
            src: Buf::X,
            dst: Buf::Normed,
        }),
        plan_of(c)[16 * l + 12] == (Op::MatVec {
            mat: Mat::Gate(l),
            src: Buf::Normed,
            dst: Buf::Gate,
        }),
        plan_of(c)[16 * l + 13] == (Op::MatVec { mat: Mat::Up(l), src: Buf::Normed, dst: Buf::Up }),
        plan_of(c)[16 * l + 14] == (Op::SwiGlu),
        plan_of(c)[16 * l + 15] == (Op::MatVec {
            mat: Mat::Down(l),
            src: Buf::Glu,
            dst: Buf::Down,
        }),
        plan_of(c)[16 * l + 16] == (Op::Accumulate { src: Buf::Down, dst: Buf::X }),
{
    lemma_layer_op(c, l as int, 0);
    lemma_layer_op(c, l as int, 1);
    lemma_layer_op(c, l as int, 2);
    lemma_layer_op(c, l as int, 3);
    lemma_layer_op(c, l as int, 4);
    lemma_layer_op(c, l as int, 5);
    lemma_layer_op(c, l as int, 6);
    lemma_layer_op(c, l as int, 7);
    lemma_layer_op(c, l as int, 8);
    lemma_layer_op(c, l as int, 9);
    lemma_layer_op(c, l as int, 10);
    lemma_layer_op(c, l as int, 11);
    lemma_layer_op(c, l as int, 12);
    lemma_layer_op(c, l as int, 13);
    lemma_layer_op(c, l as int, 14);
    lemma_layer_op(c, l as int, 15);
}

/// What an operation does not set stays as it is.
proof fn lemma_kept<'p, 'a, K: Kernels>(
    p: Pass<'p, 'a, K>,
    before: KvCache<K::Num>,
    after: KvCache<K::Num>,
    moments: Seq<Moment<K::Num>>,
    i: int,
    b: Buf,
)
    requires
        p.ran(before, after, moments),
        0 <= i < moments.len() - 1,
        p.target(plan_of(p.cfg)[i]) != Some(b),
    ensures
        moments[i + 1].bufs.at(b) == moments[i].bufs.at(b),
{
    assert(p.stepped(plan_of(p.cfg)[i], moments[i], moments[i + 1]));
}

proof fn lemma_times<'p, 'a, K: Kernels>(
    p: Pass<'p, 'a, K>,
    before: KvCache<K::Num>,
    after: KvCache<K::Num>,
    moments: Seq<Moment<K::Num>>,
    i: int,
    mat: Mat,
    src: Buf,
    dst: Buf,
)
    requires
        p.ran(before, after, moments),
        0 <= i < moments.len() - 1,
        plan_of(p.cfg)[i] == (Op::MatVec { mat, src, dst }),
        mat_in(p.weights@.layers.len() as int, mat),
    ensures
        is_times(
            p.kernels,
            mat,
            mat_of(p.weights@, mat),
            moments[i].bufs.at(src),
            moments[i + 1].bufs.at(dst),
        ),
        moments[i + 1].bufs.at(dst).len() == buf_len(p.cfg, dst),
{
    assert(p.stepped(plan_of(p.cfg)[i], moments[i], moments[i + 1]));
    let out = moments[i + 1].bufs.at(dst);
    assert(p.multiplied(mat, src, moments[i], out));
    let w = bound_mat(*p.weights, mat);
    assert(w@ == mat_of(p.weights@, mat));
    let (x, r) = choose|x: &[K::Num], r: Vec<K::Num>| #[trigger]
        call_ensures(K::matvec, (p.kernels, mat, &w, x), r) && x@ == moments[i].bufs.at(src) && r@
            == out;
    assert(call_ensures(K::matvec, (p.kernels, mat, &w, x), r));
}

proof fn lemma_norm<'p, 'a, K: Kernels>(
    p: Pass<'p, 'a, K>,
    before: KvCache<K::Num>,
    after: KvCache<K::Num>,
    moments: Seq<Moment<K::Num>>,
    i: int,
    norm: Norm,
    src: Buf,
    dst: Buf,
)
    requires
        p.ran(before, after, moments),
        0 <= i < moments.len() - 1,
        plan_of(p.cfg)[i] == (Op::RmsNorm { norm, src, dst }),
    ensures
        is_norm(
            p.kernels,
            moments[i].bufs.at(src),
            norm_of(p.weights@, norm),
            p.cfg.rms_eps,
            moments[i + 1].bufs.at(dst),
        ),
{
    assert(p.stepped(plan_of(p.cfg)[i], moments[i], moments[i + 1]));
    lemma_normed(
        p.kernels,
        moments[i].bufs.at(src),
        norm_of(p.weights@, norm),
        p.cfg.rms_eps,
        moments[i + 1].bufs.at(dst),
    );
}

proof fn lemma_turn<'p, 'a, K: Kernels>(
    p: Pass<'p, 'a, K>,
    before: KvCache<K::Num>,
    after: KvCache<K::Num>,
    moments: Seq<Moment<K::Num>>,
    i: int,
    buf: Buf,
    heads: usize,
)
    requires
        p.ran(before, after, moments),
        0 <= i < moments.len() - 1,
        plan_of(p.cfg)[i] == (Op::Rope { buf, heads }),
        p.cfg.n_head > 0,
    ensures
        is_turned(
            p.kernels,
            p.pos,
            p.cfg.n_embd as int / p.cfg.n_head as int,
            p.cfg.rope_freq_base,
            heads as int,
            moments[i].bufs.at(buf),
            moments[i + 1].bufs.at(buf),
        ),
{
    assert(p.stepped(plan_of(p.cfg)[i], moments[i], moments[i + 1]));
    let d = p.cfg.n_embd as int / p.cfg.n_head as int;
    assert(0 <= d <= p.cfg.n_embd) by (nonlinear_arith)
        requires
            d == p.cfg.n_embd as int / p.cfg.n_head as int,
            p.cfg.n_head > 0,
    ;
    lemma_rotated(
        p.kernels,
        p.pos,
        d as usize,
        p.cfg.rope_freq_base,
        heads as int,
        moments[i].bufs.at(buf),
        moments[i + 1].bufs.at(buf),
    );
}

/// The numbers that layer `l` goes through in a run.
pub open spec fn trace_of<T>(moments: Seq<Moment<T>>, l: int) -> LayerTrace<T> {
    let a = 16 * l + 1;
    LayerTrace {
        normed: moments[a + 1].bufs.at(Buf::Normed),
        q: moments[a + 2].bufs.at(Buf::Q),
        k: moments[a + 3].bufs.at(Buf::K),
        v: moments[a + 4].bufs.at(Buf::V),
        turned_q: moments[a + 5].bufs.at(Buf::Q),
        turned_k: moments[a + 6].bufs.at(Buf::K),
        att: moments[a + 8].bufs.at(Buf::Att),
        proj: moments[a + 9].bufs.at(Buf::Proj),
        mid: moments[a + 10].bufs.at(Buf::X),
        normed_mid: moments[a + 11].bufs.at(Buf::Normed),
        gate: moments[a + 12].bufs.at(Buf::Gate),
        up: moments[a + 13].bufs.at(Buf::Up),
        glu: moments[a + 14].bufs.at(Buf::Glu),
        down: moments[a + 15].bufs.at(Buf::Down),
    }
}

/// Whether a run is one of a model over a file, from a cache of its shape.
#[verifier::opaque]
spec fn of_file<'p, 'a, K: Kernels>(
    p: Pass<'p, 'a, K>,
    g: GgufFile,
    before: KvCache<K::Num>,
    after: KvCache<K::Num>,
    moments: Seq<Moment<K::Num>>,
) -> bool {
    &&& p.ran(before, after, moments)
    &&& moments.len() == plan_of(p.cfg).len() + 1
    &&& p.cfg.n_head > 0
    &&& p.weights@.layers.len() == p.cfg.n_layer
    &&& before.layers() == p.cfg.n_layer
    &&& before.heads() == p.cfg.n_head_kv
    &&& before.dim() == p.cfg.n_embd as int / p.cfg.n_head as int
    &&& p.cfg.rms_eps == stated_eps(g)
    &&& p.cfg.rope_freq_base == stated_base(g)
}

proof fn lemma_projections<'p, 'a, K: Kernels>(
    p: Pass<'p, 'a, K>,
    g: GgufFile,
    before: KvCache<K::Num>,
    after: KvCache<K::Num>,
    moments: Seq<Moment<K::Num>>,
    l: usize,
)
    requires
        of_file(p, g, before, after, moments),
        l < p.cfg.n_layer,
    ensures
        ({
            let (w, t) = (p.weights@.layers[l as int], trace_of(moments, l as int));
            let c = p.cfg;
            let d = c.n_embd as int / c.n_head as int;
            let k = p.kernels;
            let a = 16 * l + 1;
            &&& is_norm(k, moments[a].bufs.at(Buf::X), w.attn_norm, stated_eps(g), t.normed)
            &&& is_times(k, Mat::Q(l), w.attn_q, t.normed, t.q)
            &&& is_times(k, Mat::K(l), w.attn_k, t.normed, t.k)
            &&& is_times(k, Mat::V(l), w.attn_v, t.normed, t.v)
            &&& t.q.len() == c.n_embd
            &&& t.k.len() == c.n_head_kv * d
            &&& t.v.len() == c.n_head_kv * d
            &&& is_turned(k, p.pos, d, stated_base(g), c.n_head as int, t.q, t.turned_q)
            &&& is_turned(k, p.pos, d, stated_base(g), c.n_head_kv as int, t.k, t.turned_k)
        }),
{
    reveal(of_file);
    let a = 16 * l + 1;
    lemma_layer_ops(p.cfg, l);
    lemma_norm(p, before, after, moments, a, Norm::Attn(l), Buf::X, Buf::Normed);
    lemma_times(p, before, after, moments, a + 1, Mat::Q(l), Buf::Normed, Buf::Q);
    lemma_kept(p, before, after, moments, a + 1, Buf::Normed);
    lemma_times(p, before, after, moments, a + 2, Mat::K(l), Buf::Normed, Buf::K);
    lemma_kept(p, before, after, moments, a + 2, Buf::Normed);
    lemma_times(p, before, after, moments, a + 3, Mat::V(l), Buf::Normed, Buf::V);
    lemma_kept(p, before, after, moments, a + 2, Buf::Q);
    lemma_kept(p, before, after, moments, a + 3, Buf::Q);
    lemma_turn(p, before, after, moments, a + 4, Buf::Q, p.cfg.n_head);
    lemma_kept(p, before, after, moments, a + 3, Buf::K);
    lemma_kept(p, before, after, moments, a + 4, Buf::K);
    lemma_turn(p, before, after, moments, a + 5, Buf::K, p.cfg.n_head_kv);
}

proof fn lemma_reading<'p, 'a, K: Kernels>(
    p: Pass<'p, 'a, K>,
    g: GgufFile,
    before: KvCache<K::Num>,
    after: KvCache<K::Num>,
    moments: Seq<Moment<K::Num>>,
    l: usize,
)
    requires
        of_file(p, g, before, after, moments),
        l < p.cfg.n_layer,
    ensures
        ({
            let t = trace_of(moments, l as int);
            let c = p.cfg;
            &&& after.key_buf(l as int) == before.key_buf(l as int) + t.turned_k
            &&& after.value_buf(l as int) == before.value_buf(l as int) + t.v
            &&& is_attention(
                p.kernels,
                c.n_head as int,
                c.n_head_kv as int,
                c.n_embd as int / c.n_head as int,
                after.key_buf(l as int),
                after.value_buf(l as int),
                t.turned_q,
                t.att,
            )
        }),
{
    reveal(of_file);
    let a = 16 * l + 1;
    lemma_layer_ops(p.cfg, l);
    cache_during_pass(p, before, after, moments, a + 7, l as int);
    cache_during_pass(p, before, after, moments, moments.len() - 1, l as int);
    lemma_kept(p, before, after, moments, a + 4, Buf::V);
    lemma_kept(p, before, after, moments, a + 5, Buf::V);
    lemma_kept(p, before, after, moments, a + 5, Buf::Q);
    lemma_kept(p, before, after, moments, a + 6, Buf::Q);
    assert(p.stepped(plan_of(p.cfg)[a + 7], moments[a + 7], moments[a + 7 + 1]));
    lemma_attended(
        p.kernels,
        p.cfg,
        moments[a + 7].kv,
        l as int,
        moments[a + 7].bufs.at(Buf::Q),
        moments[a + 8].bufs.at(Buf::Att),
    );
}

proof fn lemma_residual<'p, 'a, K: Kernels>(
    p: Pass<'p, 'a, K>,
    g: GgufFile,
    before: KvCache<K::Num>,
    after: KvCache<K::Num>,
    moments: Seq<Moment<K::Num>>,
    l: usize,
)
    requires
        of_file(p, g, before, after, moments),
        l < p.cfg.n_layer,
    ensures
        ({
            let (w, t) = (p.weights@.layers[l as int], trace_of(moments, l as int));
            let a = 16 * l + 1;
            &&& is_times(p.kernels, Mat::AttnOutput(l), w.attn_output, t.att, t.proj)
            &&& t.proj.len() == p.cfg.n_embd
            &&& is_sum(p.kernels, moments[a].bufs.at(Buf::X), t.proj, t.mid)
        }),
{
    reveal(of_file);
    let a = 16 * l + 1;
    lemma_layer_ops(p.cfg, l);
    lemma_times(p, before, after, moments, a + 8, Mat::AttnOutput(l), Buf::Att, Buf::Proj);
    lemma_kept(p, before, after, moments, a, Buf::X);
    lemma_kept(p, before, after, moments, a + 1, Buf::X);
    lemma_kept(p, before, after, moments, a + 2, Buf::X);
    lemma_kept(p, before, after, moments, a + 3, Buf::X);
    lemma_kept(p, before, after, moments, a + 4, Buf::X);
    lemma_kept(p, before, after, moments, a + 5, Buf::X);
    lemma_kept(p, before, after, moments, a + 6, Buf::X);
    lemma_kept(p, before, after, moments, a + 7, Buf::X);
    lemma_kept(p, before, after, moments, a + 8, Buf::X);
    assert(p.stepped(plan_of(p.cfg)[a + 9], moments[a + 9], moments[a + 9 + 1]));
}

proof fn lemma_feed_forward<'p, 'a, K: Kernels>(
    p: Pass<'p, 'a, K>,
    g: GgufFile,
    before: KvCache<K::Num>,
    after: KvCache<K::Num>,
    moments: Seq<Moment<K::Num>>,
    l: usize,
)
    requires
        of_file(p, g, before, after, moments),
        l < p.cfg.n_layer,
    ensures
        feed_forward_computes(
            p.kernels,
            g,
            p.cfg,
            p.weights@.layers[l as int],
            l,
            trace_of(moments, l as int),
            moments[16 * l + 17].bufs.at(Buf::X),
        ),
{
    reveal(of_file);
    let a = 16 * l + 1;
    lemma_layer_ops(p.cfg, l);
    lemma_norm(p, before, after, moments, a + 10, Norm::Ffn(l), Buf::X, Buf::Normed);
    lemma_times(p, before, after, moments, a + 11, Mat::Gate(l), Buf::Normed, Buf::Gate);
    lemma_kept(p, before, after, moments, a + 11, Buf::Normed);
    lemma_times(p, before, after, moments, a + 12, Mat::Up(l), Buf::Normed, Buf::Up);
    lemma_kept(p, before, after, moments, a + 12, Buf::Gate);
    assert(p.stepped(plan_of(p.cfg)[a + 13], moments[a + 13], moments[a + 13 + 1]));
    lemma_times(p, before, after, moments, a + 14, Mat::Down(l), Buf::Glu, Buf::Down);
    lemma_kept(p, before, after, moments, a + 10, Buf::X);
    lemma_kept(p, before, after, moments, a + 11, Buf::X);
    lemma_kept(p, before, after, moments, a + 12, Buf::X);
    lemma_kept(p, before, after, moments, a + 13, Buf::X);
    lemma_kept(p, before, after, moments, a + 14, Buf::X);
    assert(p.stepped(plan_of(p.cfg)[a + 15], moments[a + 15], moments[a + 15 + 1]));
}

proof fn lemma_pass<'p, 'a, K: Kernels>(
    p: Pass<'p, 'a, K>,
    g: GgufFile,
    before: KvCache<K::Num>,
    after: KvCache<K::Num>,
    moments: Seq<Moment<K::Num>>,
    logits: Vec<K::Num>,
)
    requires
        of_file(p, g, before, after, moments),
        weights_of(g, p.cfg) == Ok::<WeightsView, WeightError>(p.weights@),
        p.outcome(moments, Ok(logits)),
    ensures
        is_pass(p.kernels, g, p.cfg, p.token, p.pos, before, after, logits@),
{
    let (c, n) = (p.cfg, p.cfg.n_layer as int);
    let w = p.weights@;
    let xs = Seq::new((n + 1) as nat, |l: int| moments[16 * l + 1].bufs.at(Buf::X));
    let ts = Seq::new(n as nat, |l: int| trace_of(moments, l));
    let last = moments[16 * n + 2].bufs.at(Buf::Last);
    assert(c.n_head > 0) by {
        reveal(of_file);
    }
    lemma_weights(g, c);
    lemma_ends(p, g, before, after, moments, logits);
    assert forall|l: int| 0 <= l < n implies attention_computes(
        p.kernels,
        g,
        c,
        w.layers[l],
        l as usize,
        p.pos,
        (before.key_buf(l), after.key_buf(l)),
        (before.value_buf(l), after.value_buf(l)),
        xs[l],
        #[trigger] ts[l],
    ) by {
        lemma_projections(p, g, before, after, moments, l as usize);
        lemma_reading(p, g, before, after, moments, l as usize);
        lemma_residual(p, g, before, after, moments, l as usize);
    }
    assert forall|l: int| 0 <= l < n implies feed_forward_computes(
        p.kernels,
        g,
        c,
        w.layers[l],
        l as usize,
        #[trigger] ts[l],
        xs[l + 1],
    ) by {
        lemma_feed_forward(p, g, before, after, moments, l as usize);
        assert(xs[l + 1] == moments[16 * (l + 1) + 1].bufs.at(Buf::X));
    }
    assert(xs[0] == moments[1].bufs.at(Buf::X));
    assert(xs[n] == moments[16 * n + 1].bufs.at(Buf::X));
    assert(pass_computes(
        p.kernels,
        g,
        c,
        p.token,
        p.pos,
        before,
        after,
        w,
        xs,
        ts,
        last,
        logits@,
    ));
}

proof fn lemma_ends<'p, 'a, K: Kernels>(
    p: Pass<'p, 'a, K>,
    g: GgufFile,
    before: KvCache<K::Num>,
    after: KvCache<K::Num>,
    moments: Seq<Moment<K::Num>>,
    logits: Vec<K::Num>,
)
    requires
        of_file(p, g, before, after, moments),
        p.outcome(moments, Ok(logits)),
    ensures
        is_row(
            p.kernels,
            p.weights@.token_embd,
            p.token as int,
            moments[1].bufs.at(Buf::X),
        ),
        is_norm(
            p.kernels,
            moments[16 * p.cfg.n_layer + 1].bufs.at(Buf::X),
            p.weights@.output_norm,
            stated_eps(g),
            moments[16 * p.cfg.n_layer + 2].bufs.at(Buf::Last),
        ),
        is_times(
            p.kernels,
            Mat::Output,
            p.weights@.output,
            moments[16 * p.cfg.n_layer + 2].bufs.at(Buf::Last),
            logits@,
        ),
        logits@.len() == p.cfg.vocab_size,
{
    reveal(of_file);
    let (c, end) = (p.cfg, 16 * p.cfg.n_layer + 1);
    lemma_output_op(c);
    lemma_plan_op(c, 0);
    lemma_plan_op(c, end);
    assert(p.stepped(plan_of(c)[0], moments[0], moments[1]));
    lemma_norm(p, before, after, moments, end, Norm::Output, Buf::X, Buf::Last);
    lemma_times(p, before, after, moments, end + 1, Mat::Output, Buf::Last, Buf::Logits);
}

proof fn lemma_shape_kept<'p, 'a, K: Kernels>(
    p: Pass<'p, 'a, K>,
    before: KvCache<K::Num>,
    after: KvCache<K::Num>,
    moments: Seq<Moment<K::Num>>,
    i: int,
)
    requires
        p.ran(before, after, moments),
        before.wf(),
        0 <= i < moments.len(),
    ensures
        moments[i].kv.wf(),
        moments[i].kv.layers() == before.layers(),
        moments[i].kv.heads() == before.heads(),
        moments[i].kv.dim() == before.dim(),
        moments[i].kv.positions() == before.positions(),
    decreases i,
{
    if i > 0 {
        lemma_shape_kept(p, before, after, moments, i - 1);
        assert(p.stepped(plan_of(p.cfg)[i - 1], moments[i - 1], moments[i - 1 + 1]));
    }
}

/// A decode step is a pass over the tensors that the file names: the embedding
/// of the token; in every layer the norm with the stated precision, the three
/// projections, the rotation of queries and keys for the position to the stated
/// base, attention over all rows with the row of this step, and the gated feed
/// forward, each with its residual sum; and behind the last layer the norm and
/// the product that are the logits.
pub proof fn forward_is_a_llama_pass<'a, K: Kernels>(
    m: &mut Model<'a, K::Num>,
    k: &K,
    token: u32,
    pos: usize,
    logits: Vec<K::Num>,
)
    requires
        old(m).wf(),
        states(old(m).gguf, old(m).cfg),
        call_ensures(Model::<'a, K::Num>::forward::<K>, (m, k, token, pos), Ok(logits)),
    ensures
        is_pass(
            k,
            old(m).gguf,
            old(m).cfg,
            token,
            pos,
            old(m).kv,
            final(m).kv,
            logits@,
        ),
{
    decoding_is_a_llama_pass(k, *old(m), token, pos, final(m).kv, logits);
}

/// Whether the arithmetic gives a product of another length than the matrix has
/// rows.
pub open spec fn gives_wrong_length<K: Kernels>(k: &K, mat: Mat) -> bool {
    exists|w: &Matrix<'_>, x: &[K::Num], r: Vec<K::Num>| #[trigger]
        call_ensures(K::matvec, (k, mat, w, x), r) && r@.len() != w@.rows
}

/// A decode step gives logits wherever the weights bind and the arithmetic gives
/// every product its length: it fails only where one of them does not, says which,
/// and where it is the weights, leaves the cache as it was.
pub proof fn forward_fails_only_for_cause<'a, K: Kernels>(
    m: &mut Model<'a, K::Num>,
    k: &K,
    token: u32,
    pos: usize,
    r: Result<Vec<K::Num>, ForwardError>,
    weights: Result<Weights, WeightError>,
    ops: Vec<Op>,
)
    requires
        old(m).wf(),
        call_ensures(Model::<'a, K::Num>::forward::<K>, (m, k, token, pos), r),
        call_ensures(Weights::from_gguf, (&old(m).gguf, &old(m).cfg), weights),
        call_ensures(plan, (&old(m).cfg,), ops),
    ensures
        r matches Err(ForwardError::Weights(e)) ==> weights is Err && weights->Err_0 == e
            && final(m).kv == old(m).kv,
        weights is Err ==> r is Err && r->Err_0 == ForwardError::Weights(weights->Err_0),
        r matches Err(ForwardError::Kernel(i)) ==> i < ops@.len() && (
        ops@[i as int] matches Op::MatVec { mat, .. } && gives_wrong_length(k, mat)),
        final(m).cfg == old(m).cfg,
        final(m).gguf == old(m).gguf,
        final(m).tokenizer == old(m).tokenizer,
{
    if let Err(ForwardError::Kernel(i)) = r {
        let (p, moments) = choose|p: Pass<K>, moments: Seq<Moment<K::Num>>| #[trigger]
            forwarded(old(m).gguf, p, old(m).kv, final(m).kv, moments, Err(i)) && p.is_for(
                k,
                old(m).cfg,
                token,
                pos,
            );
        reveal(forwarded);
        lemma_misfit(p, old(m).gguf, i as int, moments.last());
    } else if r is Ok {
        let (p, moments) = choose|p: Pass<K>, moments: Seq<Moment<K::Num>>| #[trigger]
            forwarded(old(m).gguf, p, old(m).kv, final(m).kv, moments, Ok(r->Ok_0)) && p.is_for(
                k,
                old(m).cfg,
                token,
                pos,
            );
        reveal(forwarded);
    }
}

/// A decode step that fails for the arithmetic does so for a product.
pub(crate) proof fn lemma_failed_step<'a, K: Kernels>(
    k: &K,
    m: Model<'a, K::Num>,
    token: u32,
    pos: usize,
    after: KvCache<K::Num>,
    i: usize,
)
    requires
        m.cfg.heads_divide(),
        decoded(k, m, token, pos, after, Err(i)),
    ensures
        exists|mat: Mat| #[trigger] gives_wrong_length(k, mat),
{
    let (p, moments) = choose|p: Pass<K>, moments: Seq<Moment<K::Num>>| #[trigger]
        forwarded(m.gguf, p, m.kv, after, moments, Err(i)) && p.is_for(k, m.cfg, token, pos);
    reveal(forwarded);
    lemma_misfit(p, m.gguf, i as int, moments.last());
    if let Op::MatVec { mat, .. } = plan_of(p.cfg)[i as int] {
        assert(gives_wrong_length(k, mat));
    }
}

proof fn lemma_misfit<'p, 'a, K: Kernels>(
    p: Pass<'p, 'a, K>,
    g: GgufFile,
    i: int,
    before: Moment<K::Num>,
)
    requires
        p.cfg.heads_divide(),
        weights_of(g, p.cfg) == Ok::<WeightsView, WeightError>(p.weights@),
        0 <= i < plan_of(p.cfg).len(),
        p.misfit(plan_of(p.cfg)[i], before),
    ensures
        plan_of(p.cfg)[i] matches Op::MatVec { mat, .. } && gives_wrong_length(p.kernels, mat),
{
    let op = plan_of(p.cfg)[i];
    plan_fits_weights(g, p.cfg, p.weights@, i);
    lemma_layer_count(g, p.cfg, p.weights@);
    if let Op::MatVec { mat, src, dst } = op {
        let v = choose|v: Seq<K::Num>| #[trigger]
            p.multiplied(mat, src, before, v) && v.len() != buf_len(p.cfg, dst);
        let w = bound_mat(*p.weights, mat);
        assert(w@ == mat_of(p.weights@, mat));
        let (x, r) = choose|x: &[K::Num], r: Vec<K::Num>| #[trigger]
            call_ensures(K::matvec, (p.kernels, mat, &w, x), r) && x@ == before.bufs.at(src) && r@
                == v;
        assert(call_ensures(K::matvec, (p.kernels, mat, &w, x), r));
    }
}

/// A decode step, wherever it stands in a longer run, is such a pass.
pub proof fn decoding_is_a_llama_pass<'a, K: Kernels>(
    k: &K,
    m: Model<'a, K::Num>,
    token: u32,
    pos: usize,
    after: KvCache<K::Num>,
    logits: Vec<K::Num>,
)
    requires
        m.wf(),
        states(m.gguf, m.cfg),
        decoded(k, m, token, pos, after, Ok(logits)),
    ensures
        is_pass(k, m.gguf, m.cfg, token, pos, m.kv, after, logits@),
        with_cache(m, after).wf(),
{
    let (p, moments) = choose|p: Pass<K>, moments: Seq<Moment<K::Num>>| #[trigger]
        forwarded(m.gguf, p, m.kv, after, moments, Ok(logits)) && p.is_for(k, m.cfg, token, pos);
    reveal(forwarded);
    lemma_layer_count(m.gguf, m.cfg, p.weights@);
    lemma_shape_kept(p, m.kv, after, moments, moments.len() - 1);
    reveal(of_file);
    lemma_pass(p, m.gguf, m.kv, after, moments, logits);
}

} // verus!
