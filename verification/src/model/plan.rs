//! The forward pass as a plan: which operation runs when, on which weights and
//! which buffers. The arithmetic of the operations is not part of the plan.
//!
//! Per token: embed, then for each layer { rmsnorm, q/k/v projections, RoPE on
//! q and k, append k and v to the cache, causal attention over the cache,
//! output projection, residual, rmsnorm, SwiGLU MLP, residual }, then the final
//! rmsnorm and the output projection.

use vstd::prelude::*;

use crate::gguf::GgufFile;
use crate::model::config::Config;
use crate::model::weights::{
    layer_of, layers_of, weights_of, LayerView, MatrixView, WeightError, WeightsView,
};

verus! {

/// A buffer of numbers that the forward pass works in.
#[derive(Clone, Copy, Debug, PartialEq, Eq, Structural)]
pub enum Buf {
    /// The residual stream.
    X,
    Normed,
    Q,
    K,
    V,
    /// What the heads read of the cache.
    Att,
    /// The attention output, projected.
    Proj,
    Gate,
    Up,
    Glu,
    Down,
    /// The residual stream after the last norm.
    Last,
    Logits,
}

/// A norm weight.
#[derive(Clone, Copy, Debug, PartialEq, Eq, Structural)]
pub enum Norm {
    Attn(usize),
    Ffn(usize),
    Output,
}

/// A weight matrix of a projection.
#[derive(Clone, Copy, Debug, PartialEq, Eq, Structural)]
pub enum Mat {
    Q(usize),
    K(usize),
    V(usize),
    AttnOutput(usize),
    Gate(usize),
    Up(usize),
    Down(usize),
    Output,
}

/// One operation of the forward pass.
#[derive(Clone, Copy, Debug, PartialEq, Eq, Structural)]
pub enum Op {
    /// Sets the residual stream to the embedding of the token.
    Embed,
    /// Sets `dst` to the norm of `src`.
    RmsNorm { norm: Norm, src: Buf, dst: Buf },
    /// Sets `dst` to the product of the matrix and `src`.
    MatVec { mat: Mat, src: Buf, dst: Buf },
    /// Rotates the first `heads` heads of `buf`.
    Rope { buf: Buf, heads: usize },
    /// Appends `K` and `V` to the cache of a layer.
    Append { layer: usize },
    /// Sets `Att` to what the heads of `Q` read of the cache of a layer.
    Attend { layer: usize },
    /// Adds `src` to `dst`.
    Accumulate { src: Buf, dst: Buf },
    /// Sets `Glu` to the SwiGLU of `Gate` and `Up`.
    SwiGlu,
}

/// The operations of one layer.
pub open spec fn layer_plan(c: Config, l: usize) -> Seq<Op> {
    seq![
        Op::RmsNorm { norm: Norm::Attn(l), src: Buf::X, dst: Buf::Normed },
        Op::MatVec { mat: Mat::Q(l), src: Buf::Normed, dst: Buf::Q },
        Op::MatVec { mat: Mat::K(l), src: Buf::Normed, dst: Buf::K },
        Op::MatVec { mat: Mat::V(l), src: Buf::Normed, dst: Buf::V },
        Op::Rope { buf: Buf::Q, heads: c.n_head },
        Op::Rope { buf: Buf::K, heads: c.n_head_kv },
        Op::Append { layer: l },
        Op::Attend { layer: l },
        Op::MatVec { mat: Mat::AttnOutput(l), src: Buf::Att, dst: Buf::Proj },
        Op::Accumulate { src: Buf::Proj, dst: Buf::X },
        Op::RmsNorm { norm: Norm::Ffn(l), src: Buf::X, dst: Buf::Normed },
        Op::MatVec { mat: Mat::Gate(l), src: Buf::Normed, dst: Buf::Gate },
        Op::MatVec { mat: Mat::Up(l), src: Buf::Normed, dst: Buf::Up },
        Op::SwiGlu,
        Op::MatVec { mat: Mat::Down(l), src: Buf::Glu, dst: Buf::Down },
        Op::Accumulate { src: Buf::Down, dst: Buf::X },
    ]
}

/// The embedding and the operations of the first `n` layers.
pub open spec fn layers_plan(c: Config, n: int) -> Seq<Op>
    decreases n,
{
    if n <= 0 {
        seq![Op::Embed]
    } else {
        layers_plan(c, n - 1) + layer_plan(c, (n - 1) as usize)
    }
}

/// The operations behind the last layer.
pub open spec fn output_plan() -> Seq<Op> {
    seq![
        Op::RmsNorm { norm: Norm::Output, src: Buf::X, dst: Buf::Last },
        Op::MatVec { mat: Mat::Output, src: Buf::Last, dst: Buf::Logits },
    ]
}

/// The operations of the forward pass for one token.
pub open spec fn plan_of(c: Config) -> Seq<Op> {
    layers_plan(c, c.n_layer as int) + output_plan()
}

/// The number of numbers in a buffer.
pub open spec fn buf_len(c: Config, b: Buf) -> int {
    match b {
        Buf::K => c.kv_len(),
        Buf::V => c.kv_len(),
        Buf::Gate => c.n_ff as int,
        Buf::Up => c.n_ff as int,
        Buf::Glu => c.n_ff as int,
        Buf::Logits => c.vocab_size as int,
        _ => c.n_embd as int,
    }
}

/// The numbers of a norm weight.
pub open spec fn norm_of(w: WeightsView, n: Norm) -> Seq<u32> {
    match n {
        Norm::Attn(l) => w.layers[l as int].attn_norm,
        Norm::Ffn(l) => w.layers[l as int].ffn_norm,
        Norm::Output => w.output_norm,
    }
}

/// The matrix of a projection.
pub open spec fn mat_of(w: WeightsView, m: Mat) -> MatrixView {
    match m {
        Mat::Q(l) => w.layers[l as int].attn_q,
        Mat::K(l) => w.layers[l as int].attn_k,
        Mat::V(l) => w.layers[l as int].attn_v,
        Mat::AttnOutput(l) => w.layers[l as int].attn_output,
        Mat::Gate(l) => w.layers[l as int].ffn_gate,
        Mat::Up(l) => w.layers[l as int].ffn_up,
        Mat::Down(l) => w.layers[l as int].ffn_down,
        Mat::Output => w.output,
    }
}

/// Whether a projection is one of a layer that there is.
pub open spec fn mat_in(n_layer: int, m: Mat) -> bool {
    match m {
        Mat::Q(l) => l < n_layer,
        Mat::K(l) => l < n_layer,
        Mat::V(l) => l < n_layer,
        Mat::AttnOutput(l) => l < n_layer,
        Mat::Gate(l) => l < n_layer,
        Mat::Up(l) => l < n_layer,
        Mat::Down(l) => l < n_layer,
        Mat::Output => true,
    }
}

/// Whether a norm is one of a layer that there is.
pub open spec fn norm_in(n_layer: int, n: Norm) -> bool {
    match n {
        Norm::Attn(l) => l < n_layer,
        Norm::Ffn(l) => l < n_layer,
        Norm::Output => true,
    }
}

/// Whether the shapes of weights and buffers agree in an operation, and its
/// layer is one of the model's.
pub open spec fn shaped(c: Config, w: WeightsView, op: Op) -> bool {
    match op {
        Op::Embed => w.token_embd.cols == buf_len(c, Buf::X) && w.token_embd.rows == c.vocab_size,
        Op::RmsNorm { norm, src, dst } => {
            &&& norm_in(c.n_layer as int, norm)
            &&& norm_of(w, norm).len() == buf_len(c, src)
            &&& buf_len(c, src) == buf_len(c, dst)
        },
        Op::MatVec { mat, src, dst } => {
            &&& mat_in(c.n_layer as int, mat)
            &&& mat_of(w, mat).cols == buf_len(c, src)
            &&& mat_of(w, mat).rows == buf_len(c, dst)
        },
        Op::Rope { buf, heads } => heads * c.head_len() <= buf_len(c, buf),
        Op::Append { layer } => layer < c.n_layer,
        Op::Attend { layer } => layer < c.n_layer,
        Op::Accumulate { src, dst } => buf_len(c, src) == buf_len(c, dst),
        Op::SwiGlu => buf_len(c, Buf::Gate) == buf_len(c, Buf::Up) && buf_len(c, Buf::Up)
            == buf_len(c, Buf::Glu),
    }
}

/// Whether an operation reads a buffer.
pub open spec fn reads(op: Op, b: Buf) -> bool {
    match op {
        Op::Embed => false,
        Op::RmsNorm { src, .. } => b == src,
        Op::MatVec { src, .. } => b == src,
        Op::Rope { buf, .. } => b == buf,
        Op::Append { .. } => b == Buf::K || b == Buf::V,
        Op::Attend { .. } => b == Buf::Q,
        Op::Accumulate { src, dst } => b == src || b == dst,
        Op::SwiGlu => b == Buf::Gate || b == Buf::Up,
    }
}

/// Whether an operation sets a buffer, without regard to what was in it.
pub open spec fn sets(op: Op, b: Buf) -> bool {
    match op {
        Op::Embed => b == Buf::X,
        Op::RmsNorm { dst, .. } => b == dst,
        Op::MatVec { dst, .. } => b == dst,
        Op::Attend { .. } => b == Buf::Att,
        Op::SwiGlu => b == Buf::Glu,
        _ => false,
    }
}

/// Pushes the operations of one layer.
fn push_layer(ops: &mut Vec<Op>, c: &Config, l: usize)
    ensures
        final(ops)@ == old(ops)@ + layer_plan(*c, l),
{
    ops.push(Op::RmsNorm { norm: Norm::Attn(l), src: Buf::X, dst: Buf::Normed });
    ops.push(Op::MatVec { mat: Mat::Q(l), src: Buf::Normed, dst: Buf::Q });
    ops.push(Op::MatVec { mat: Mat::K(l), src: Buf::Normed, dst: Buf::K });
    ops.push(Op::MatVec { mat: Mat::V(l), src: Buf::Normed, dst: Buf::V });
    ops.push(Op::Rope { buf: Buf::Q, heads: c.n_head });
    ops.push(Op::Rope { buf: Buf::K, heads: c.n_head_kv });
    ops.push(Op::Append { layer: l });
    ops.push(Op::Attend { layer: l });
    ops.push(Op::MatVec { mat: Mat::AttnOutput(l), src: Buf::Att, dst: Buf::Proj });
    ops.push(Op::Accumulate { src: Buf::Proj, dst: Buf::X });
    ops.push(Op::RmsNorm { norm: Norm::Ffn(l), src: Buf::X, dst: Buf::Normed });
    ops.push(Op::MatVec { mat: Mat::Gate(l), src: Buf::Normed, dst: Buf::Gate });
    ops.push(Op::MatVec { mat: Mat::Up(l), src: Buf::Normed, dst: Buf::Up });
    ops.push(Op::SwiGlu);
    ops.push(Op::MatVec { mat: Mat::Down(l), src: Buf::Glu, dst: Buf::Down });
    ops.push(Op::Accumulate { src: Buf::Down, dst: Buf::X });
    assert(ops@ =~= old(ops)@ + layer_plan(*c, l));
}

/// The operations of the forward pass for one token.
pub fn plan(c: &Config) -> (ops: Vec<Op>)
    ensures
        ops@ == plan_of(*c),
{
    let mut ops: Vec<Op> = Vec::new();
    ops.push(Op::Embed);
    assert(ops@ =~= layers_plan(*c, 0));
    let mut l: usize = 0;
    while l < c.n_layer
        invariant
            l <= c.n_layer,
            ops@ == layers_plan(*c, l as int),
        decreases c.n_layer - l,
    {
        push_layer(&mut ops, c, l);
        l += 1;
    }
    ops.push(Op::RmsNorm { norm: Norm::Output, src: Buf::X, dst: Buf::Last });
    ops.push(Op::MatVec { mat: Mat::Output, src: Buf::Last, dst: Buf::Logits });
    assert(ops@ =~= plan_of(*c));
    ops
}

/// The number of numbers in a buffer.
pub fn buffer_len(c: &Config, b: Buf) -> (n: usize)
    requires
        c.heads_divide(),
    ensures
        n == buf_len(*c, b),
{
    match b {
        Buf::K => c.kv_dim(),
        Buf::V => c.kv_dim(),
        Buf::Gate => c.n_ff,
        Buf::Up => c.n_ff,
        Buf::Glu => c.n_ff,
        Buf::Logits => c.vocab_size,
        _ => c.n_embd,
    }
}

proof fn lemma_layer_at(g: GgufFile, c: Config, n: int, l: int)
    requires
        layers_of(g, c, n) is Ok,
        0 <= l < n,
    ensures
        layers_of(g, c, n)->Ok_0.len() == n,
        layer_of(g, c, l) == Ok::<LayerView, WeightError>(layers_of(g, c, n)->Ok_0[l]),
    decreases n,
{
    if l < n - 1 {
        lemma_layer_at(g, c, n - 1, l);
    } else if n > 1 {
        lemma_layer_at(g, c, n - 1, 0);
    }
}

/// There are as many layers as the hyperparameters say.
pub(crate) proof fn lemma_layer_count(g: GgufFile, c: Config, w: WeightsView)
    requires
        weights_of(g, c) == Ok::<WeightsView, WeightError>(w),
    ensures
        w.layers.len() == c.n_layer,
{
    if c.n_layer > 0 {
        lemma_layer_at(g, c, c.n_layer as int, 0);
    }
}

/// The shapes of the weights of a layer.
proof fn lemma_layer_dims(g: GgufFile, c: Config, w: WeightsView, l: int)
    requires
        weights_of(g, c) == Ok::<WeightsView, WeightError>(w),
        0 <= l < c.n_layer,
    ensures
        layer_dims(c, w.layers[l]),
{
    lemma_layer_at(g, c, c.n_layer as int, l);
    assert(layer_of(g, c, l) == Ok::<LayerView, WeightError>(w.layers[l]));
}

spec fn layer_dims(c: Config, w: LayerView) -> bool {
    &&& w.attn_norm.len() == c.n_embd
    &&& w.attn_q.rows == c.n_embd && w.attn_q.cols == c.n_embd
    &&& w.attn_k.rows == c.kv_len() && w.attn_k.cols == c.n_embd
    &&& w.attn_v.rows == c.kv_len() && w.attn_v.cols == c.n_embd
    &&& w.attn_output.rows == c.n_embd && w.attn_output.cols == c.n_embd
    &&& w.ffn_norm.len() == c.n_embd
    &&& w.ffn_gate.rows == c.n_ff && w.ffn_gate.cols == c.n_embd
    &&& w.ffn_up.rows == c.n_ff && w.ffn_up.cols == c.n_embd
    &&& w.ffn_down.rows == c.n_embd && w.ffn_down.cols == c.n_ff
}

proof fn lemma_layer_shaped(c: Config, w: WeightsView, l: usize, i: int)
    requires
        c.heads_divide(),
        l < c.n_layer,
        layer_dims(c, w.layers[l as int]),
        0 <= i < 16,
    ensures
        shaped(c, w, layer_plan(c, l)[i]),
{
    crate::model::config::lemma_kv_fits(c);
    let op = layer_plan(c, l)[i];
    if i == 0 {
        assert(op == Op::RmsNorm { norm: Norm::Attn(l), src: Buf::X, dst: Buf::Normed });
    } else if i == 4 {
        assert(op == Op::Rope { buf: Buf::Q, heads: c.n_head });
    } else if i == 5 {
        assert(op == Op::Rope { buf: Buf::K, heads: c.n_head_kv });
    } else if i == 10 {
        assert(op == Op::RmsNorm { norm: Norm::Ffn(l), src: Buf::X, dst: Buf::Normed });
    }
}

proof fn lemma_layers_shaped(g: GgufFile, c: Config, w: WeightsView, n: int, i: int)
    requires
        c.heads_divide(),
        weights_of(g, c) == Ok::<WeightsView, WeightError>(w),
        0 <= n <= c.n_layer,
        0 <= i < layers_plan(c, n).len(),
    ensures
        shaped(c, w, layers_plan(c, n)[i]),
    decreases n,
{
    if n > 0 {
        let k = layers_plan(c, n - 1).len();
        if i < k {
            lemma_layers_shaped(g, c, w, n - 1, i);
        } else {
            lemma_layer_dims(g, c, w, n - 1);
            lemma_layer_shaped(c, w, (n - 1) as usize, i - k);
        }
    }
}

/// The plan fits the weights: with the weights of a model bound, every
/// operation of its plan works on weights and buffers of matching shapes.
pub proof fn plan_fits_weights(g: GgufFile, c: Config, w: WeightsView, i: int)
    requires
        c.heads_divide(),
        weights_of(g, c) == Ok::<WeightsView, WeightError>(w),
        0 <= i < plan_of(c).len(),
    ensures
        shaped(c, w, plan_of(c)[i]),
{
    let k = layers_plan(c, c.n_layer as int).len();
    if i < k {
        lemma_layers_shaped(g, c, w, c.n_layer as int, i);
    } else {
        assert(plan_of(c)[i] == output_plan()[i - k]);
    }
}

/// Whether some operation before `i` sets `b`.
pub open spec fn set_before(ops: Seq<Op>, i: int, b: Buf) -> bool {
    exists|j: int| 0 <= j < i && sets(#[trigger] ops[j], b)
}

/// The place of the operation in a layer that sets `b`, other than `X`.
spec fn setter(b: Buf) -> int {
    match b {
        Buf::Normed => 0,
        Buf::Q => 1,
        Buf::K => 2,
        Buf::V => 3,
        Buf::Att => 7,
        Buf::Proj => 8,
        Buf::Gate => 11,
        Buf::Up => 12,
        Buf::Glu => 13,
        Buf::Down => 14,
        _ => 0,
    }
}

proof fn lemma_layer_sets(c: Config, l: usize, i: int, b: Buf)
    requires
        0 <= i < 16,
        reads(layer_plan(c, l)[i], b),
        b != Buf::X,
    ensures
        0 <= setter(b) < i,
        sets(layer_plan(c, l)[setter(b)], b),
{
}

proof fn lemma_embed_first(c: Config, n: int)
    ensures
        layers_plan(c, n).len() > 0,
        layers_plan(c, n)[0] == Op::Embed,
    decreases n,
{
    if n > 0 {
        lemma_embed_first(c, n - 1);
    }
}

proof fn lemma_layers_set(c: Config, n: int, i: int, b: Buf)
    requires
        0 <= i < layers_plan(c, n).len(),
        reads(layers_plan(c, n)[i], b),
    ensures
        set_before(layers_plan(c, n), i, b),
    decreases n,
{
    let ops = layers_plan(c, n);
    lemma_embed_first(c, n);
    if n > 0 {
        let (front, layer) = (layers_plan(c, n - 1), layer_plan(c, (n - 1) as usize));
        let k = front.len();
        lemma_embed_first(c, n - 1);
        if i < k {
            lemma_layers_set(c, n - 1, i, b);
            let j = choose|j: int| 0 <= j < i && sets(#[trigger] front[j], b);
            assert(sets(ops[j], b));
        } else if b == Buf::X {
            assert(sets(ops[0], b));
        } else {
            assert(ops[i] == layer[i - k]);
            lemma_layer_sets(c, (n - 1) as usize, i - k, b);
            assert(ops[k + setter(b)] == layer[setter(b)]);
        }
    }
}

/// Nothing is read before it is set: every buffer that an operation of the
/// plan reads was set by an operation before it.
pub proof fn plan_reads_what_was_set(c: Config, i: int, b: Buf)
    requires
        0 <= i < plan_of(c).len(),
        reads(plan_of(c)[i], b),
    ensures
        set_before(plan_of(c), i, b),
{
    let (ops, front) = (plan_of(c), layers_plan(c, c.n_layer as int));
    let k = front.len();
    lemma_embed_first(c, c.n_layer as int);
    if i < k {
        lemma_layers_set(c, c.n_layer as int, i, b);
        let j = choose|j: int| 0 <= j < i && sets(#[trigger] front[j], b);
        assert(sets(ops[j], b));
    } else {
        assert(ops[i] == output_plan()[i - k]);
        if i == k {
            assert(sets(ops[0], b));
        } else {
            assert(ops[k as int] == output_plan()[0]);
            assert(sets(ops[k as int], b));
        }
    }
}

proof fn lemma_layers_len(c: Config, n: int)
    requires
        0 <= n,
    ensures
        layers_plan(c, n).len() == 1 + 16 * n,
    decreases n,
{
    if n > 0 {
        lemma_layers_len(c, n - 1);
    }
}

proof fn lemma_layer_place(c: Config, n: int, l: int, i: int)
    requires
        0 <= l < n,
        0 <= i < 16,
    ensures
        layers_plan(c, n)[1 + 16 * l + i] == layer_plan(c, l as usize)[i],
    decreases n,
{
    lemma_layers_len(c, n - 1);
    if l < n - 1 {
        lemma_layer_place(c, n - 1, l, i);
    }
}

/// Operation `i` of layer `l` stands at its place in the plan.
pub(crate) proof fn lemma_layer_op(c: Config, l: int, i: int)
    requires
        0 <= l < c.n_layer,
        0 <= i < 16,
    ensures
        plan_of(c).len() == 3 + 16 * c.n_layer,
        plan_of(c)[1 + 16 * l + i] == layer_plan(c, l as usize)[i],
{
    lemma_layers_len(c, c.n_layer as int);
    lemma_layer_place(c, c.n_layer as int, l, i);
}

/// Every operation of the plan is the embedding, one of a layer's, or one
/// behind the last layer.
pub(crate) proof fn lemma_plan_op(c: Config, i: int)
    requires
        0 <= i < plan_of(c).len(),
    ensures
        plan_of(c).len() == 3 + 16 * c.n_layer,
        i == 0 ==> plan_of(c)[i] == Op::Embed,
        0 < i < 1 + 16 * c.n_layer ==> plan_of(c)[i] == layer_plan(
            c,
            ((i - 1) / 16) as usize,
        )[(i - 1) % 16],
        1 + 16 * c.n_layer <= i ==> plan_of(c)[i] == output_plan()[i - (1 + 16 * c.n_layer)],
{
    let n = c.n_layer as int;
    lemma_layers_len(c, n);
    lemma_embed_first(c, n);
    if 0 < i < 1 + 16 * n {
        lemma_layer_place(c, n, (i - 1) / 16, (i - 1) % 16);
    }
}

/// The output projection is the last operation of the plan.
pub(crate) proof fn lemma_output_op(c: Config)
    ensures
        plan_of(c).len() == 3 + 16 * c.n_layer,
        plan_of(c).last() == (Op::MatVec { mat: Mat::Output, src: Buf::Last, dst: Buf::Logits }),
{
    lemma_layers_len(c, c.n_layer as int);
}

/// Each layer appends to its cache once, and attends to it right afterwards:
/// the operations that append or attend stand where layer `l` has them, and
/// nowhere else.
pub proof fn layers_append_then_attend(c: Config, i: int)
    requires
        0 <= i < plan_of(c).len(),
    ensures
        plan_of(c).len() == 3 + 16 * c.n_layer,
        forall|l: usize|
            l < c.n_layer ==> #[trigger] plan_of(c)[1 + 16 * l + 6] == (Op::Append { layer: l })
                && plan_of(c)[1 + 16 * l + 7] == (Op::Attend { layer: l }),
        plan_of(c)[i] matches Op::Append { layer } ==> layer < c.n_layer && i == 1 + 16 * layer + 6,
        plan_of(c)[i] matches Op::Attend { layer } ==> layer < c.n_layer && i == 1 + 16 * layer + 7,
{
    let n = c.n_layer as int;
    lemma_layers_len(c, n);
    assert forall|l: usize| l < c.n_layer implies #[trigger] plan_of(c)[1 + 16 * l + 6] == (
    Op::Append { layer: l }) && plan_of(c)[1 + 16 * l + 7] == (Op::Attend { layer: l }) by {
        lemma_layer_place(c, n, l as int, 6);
        lemma_layer_place(c, n, l as int, 7);
    }
    if i == 0 {
        lemma_embed_first(c, n);
    } else if i < 1 + 16 * n {
        lemma_layer_place(c, n, (i - 1) / 16, (i - 1) % 16);
    } else {
        assert(plan_of(c)[i] == output_plan()[i - (1 + 16 * n)]);
    }
}

} // verus!
