//! What a decode step does to the cache, and what its attention sees of it.

use vstd::prelude::*;

use crate::kv_cache::KvCache;
use crate::math::kernels::Kernels;
use crate::math::quant::product;
use crate::model::forward::{bound_mat, decoded, forwarded, Moment, Pass};
use crate::model::llama::Model;
use crate::model::plan::{
    buf_len, layers_append_then_attend, lemma_layer_op, lemma_output_op, mat_in, mat_of, plan_of,
    Buf, Mat, Op,
};
use crate::model::weights::Matrix;

verus! {

/// The model with another cache.
pub open spec fn with_cache<'a, T>(m: Model<'a, T>, kv: KvCache<T>) -> Model<'a, T> {
    Model { kv, ..m }
}

/// The place in the plan of the operation that appends to layer `l`.
pub open spec fn append_place(l: int) -> int {
    16 * l + 7
}

/// The cache of a layer during a pass: as before up to the operation that
/// appends to it, and from then on with the rows that were in `K` and `V` then.
pub proof fn cache_during_pass<'p, 'a, K: Kernels>(
    p: Pass<'p, 'a, K>,
    before: KvCache<K::Num>,
    after: KvCache<K::Num>,
    moments: Seq<Moment<K::Num>>,
    i: int,
    l: int,
)
    requires
        p.ran(before, after, moments),
        before.layers() == p.cfg.n_layer,
        0 <= i < moments.len(),
        0 <= l < p.cfg.n_layer,
    ensures
        before.wf() ==> moments[i].kv.wf(),
        moments[i].kv.layers() == before.layers(),
        moments[i].kv.heads() == before.heads(),
        moments[i].kv.dim() == before.dim(),
        i <= append_place(l) ==> moments[i].kv.key_buf(l) == before.key_buf(l)
            && moments[i].kv.value_buf(l) == before.value_buf(l),
        i > append_place(l) ==> moments[i].kv.key_buf(l) == before.key_buf(l)
            + moments[append_place(l)].bufs.at(Buf::K) && moments[i].kv.value_buf(l)
            == before.value_buf(l) + moments[append_place(l)].bufs.at(Buf::V),
    decreases i,
{
    if i > 0 {
        cache_during_pass(p, before, after, moments, i - 1, l);
        layers_append_then_attend(p.cfg, i - 1);
        assert(p.stepped(plan_of(p.cfg)[i - 1], moments[i - 1], moments[i - 1 + 1]));
        if i - 1 == append_place(l) {
            assert(plan_of(p.cfg)[1 + 16 * (l as usize) + 6] == (Op::Append { layer: l as usize }));
        }
    }
}

/// What is appended to a layer is one row of keys and one row of values.
pub(crate) proof fn lemma_row_lengths<'p, 'a, K: Kernels>(
    p: Pass<'p, 'a, K>,
    before: KvCache<K::Num>,
    after: KvCache<K::Num>,
    moments: Seq<Moment<K::Num>>,
    l: int,
)
    requires
        p.ran(before, after, moments),
        0 <= l < p.cfg.n_layer,
        append_place(l) < moments.len(),
    ensures
        moments[append_place(l)].bufs.at(Buf::K).len() == p.cfg.kv_len(),
        moments[append_place(l)].bufs.at(Buf::V).len() == p.cfg.kv_len(),
{
    let (c, a) = (p.cfg, 16 * l);
    lemma_layer_op(c, l, 2);
    lemma_layer_op(c, l, 3);
    lemma_layer_op(c, l, 4);
    lemma_layer_op(c, l, 5);
    assert(plan_of(c)[a + 3] == (Op::MatVec {
        mat: Mat::K(l as usize),
        src: Buf::Normed,
        dst: Buf::K,
    }));
    assert(moments[a + 4].bufs.at(Buf::K).len() == buf_len(c, Buf::K)) by {
        assert(p.stepped(plan_of(c)[a + 3], moments[a + 3], moments[a + 3 + 1]));
    }
    assert(moments[a + 5].bufs.at(Buf::K) == moments[a + 4].bufs.at(Buf::K)
        && moments[a + 5].bufs.at(Buf::V).len() == buf_len(c, Buf::V)) by {
        assert(p.stepped(plan_of(c)[a + 4], moments[a + 4], moments[a + 4 + 1]));
    }
    assert(moments[a + 6].bufs.at(Buf::K) == moments[a + 5].bufs.at(Buf::K)
        && moments[a + 6].bufs.at(Buf::V) == moments[a + 5].bufs.at(Buf::V)) by {
        assert(p.stepped(plan_of(c)[a + 5], moments[a + 5], moments[a + 5 + 1]));
    }
    assert(moments[a + 7].bufs.at(Buf::K).len() == moments[a + 6].bufs.at(Buf::K).len()
        && moments[a + 7].bufs.at(Buf::V) == moments[a + 6].bufs.at(Buf::V)) by {
        assert(p.stepped(plan_of(c)[a + 6], moments[a + 6], moments[a + 6 + 1]));
    }
}

/// What a layer attends with is a number for each of the embedding.
pub(crate) proof fn lemma_query_length<'p, 'a, K: Kernels>(
    p: Pass<'p, 'a, K>,
    before: KvCache<K::Num>,
    after: KvCache<K::Num>,
    moments: Seq<Moment<K::Num>>,
    l: int,
)
    requires
        p.ran(before, after, moments),
        0 <= l < p.cfg.n_layer,
        append_place(l) + 1 < moments.len(),
    ensures
        moments[append_place(l) + 1].bufs.at(Buf::Q).len() == p.cfg.n_embd,
{
    let (c, a) = (p.cfg, 16 * l);
    lemma_layer_op(c, l, 1);
    lemma_layer_op(c, l, 2);
    lemma_layer_op(c, l, 3);
    lemma_layer_op(c, l, 4);
    lemma_layer_op(c, l, 5);
    lemma_layer_op(c, l, 6);
    assert(moments[a + 3].bufs.at(Buf::Q).len() == buf_len(c, Buf::Q)) by {
        assert(p.stepped(plan_of(c)[a + 2], moments[a + 2], moments[a + 2 + 1]));
    }
    assert(moments[a + 4].bufs.at(Buf::Q) == moments[a + 3].bufs.at(Buf::Q)) by {
        assert(p.stepped(plan_of(c)[a + 3], moments[a + 3], moments[a + 3 + 1]));
    }
    assert(moments[a + 5].bufs.at(Buf::Q) == moments[a + 4].bufs.at(Buf::Q)) by {
        assert(p.stepped(plan_of(c)[a + 4], moments[a + 4], moments[a + 4 + 1]));
    }
    assert(moments[a + 6].bufs.at(Buf::Q).len() == moments[a + 5].bufs.at(Buf::Q).len()) by {
        assert(p.stepped(plan_of(c)[a + 5], moments[a + 5], moments[a + 5 + 1]));
    }
    assert(moments[a + 7].bufs.at(Buf::Q) == moments[a + 6].bufs.at(Buf::Q)) by {
        assert(p.stepped(plan_of(c)[a + 6], moments[a + 6], moments[a + 6 + 1]));
    }
    assert(moments[a + 8].bufs == moments[a + 7].bufs) by {
        assert(p.stepped(plan_of(c)[a + 7], moments[a + 7], moments[a + 7 + 1]));
    }
}

/// The attention of a layer sees the row of its own step: where the cache had
/// `n` rows before the step, the layer has `n + 1` when it attends.
pub proof fn attention_sees_this_step<'p, 'a, K: Kernels>(
    p: Pass<'p, 'a, K>,
    before: KvCache<K::Num>,
    after: KvCache<K::Num>,
    moments: Seq<Moment<K::Num>>,
    l: int,
    n: int,
)
    requires
        p.ran(before, after, moments),
        before.layers() == p.cfg.n_layer,
        before.row_len() == p.cfg.kv_len(),
        before.row_len() > 0,
        0 <= l < p.cfg.n_layer,
        append_place(l) + 1 < moments.len(),
        0 <= n,
        before.key_buf(l).len() == n * before.row_len(),
    ensures
        plan_of(p.cfg)[append_place(l) + 1] == (Op::Attend { layer: l as usize }),
        moments[append_place(l) + 1].kv.row_count(l) == n + 1,
{
    let row = before.row_len();
    cache_during_pass(p, before, after, moments, append_place(l) + 1, l);
    lemma_row_lengths(p, before, after, moments, l);
    lemma_layer_op(p.cfg, l, 7);
    assert((n * row + row) / row == n + 1) by (nonlinear_arith)
        requires
            row > 0,
    ;
}

/// A decode step adds one row to every layer: the rows that were there stay,
/// before the new one, and the model stays well-formed.
pub proof fn decode_adds_one_row<'a, K: Kernels>(
    k: &K,
    m: Model<'a, K::Num>,
    token: u32,
    pos: usize,
    after: KvCache<K::Num>,
    logits: Vec<K::Num>,
    l: int,
)
    requires
        m.wf(),
        decoded(k, m, token, pos, after, Ok(logits)),
        0 <= l < m.kv.layers(),
    ensures
        with_cache(m, after).wf(),
        after.key_buf(l).len() == m.kv.key_buf(l).len() + m.kv.row_len(),
        after.value_buf(l).len() == m.kv.value_buf(l).len() + m.kv.row_len(),
        after.key_buf(l).take(m.kv.key_buf(l).len() as int) == m.kv.key_buf(l),
        after.value_buf(l).take(m.kv.value_buf(l).len() as int) == m.kv.value_buf(l),
{
    let (p, moments) = choose|p: Pass<K>, moments: Seq<Moment<K::Num>>| #[trigger]
        forwarded(m.gguf, p, m.kv, after, moments, Ok(logits)) && p.is_for(k, m.cfg, token, pos);
    reveal(forwarded);
    let i = moments.len() - 1;
    lemma_layer_op(p.cfg, l, 0);
    cache_during_pass(p, m.kv, after, moments, i, l);
    lemma_row_lengths(p, m.kv, after, moments, l);
    assert(after.key_buf(l).take(m.kv.key_buf(l).len() as int) =~= m.kv.key_buf(l));
    assert(after.value_buf(l).take(m.kv.value_buf(l).len() as int) =~= m.kv.value_buf(l));
}

/// A decode step gives one logit for each token of the vocabulary.
pub proof fn logits_cover_vocabulary<'a, K: Kernels>(
    k: &K,
    m: Model<'a, K::Num>,
    token: u32,
    pos: usize,
    after: KvCache<K::Num>,
    logits: Vec<K::Num>,
)
    requires
        decoded(k, m, token, pos, after, Ok(logits)),
    ensures
        logits@.len() == m.cfg.vocab_size,
{
    let (p, moments) = choose|p: Pass<K>, moments: Seq<Moment<K::Num>>| #[trigger]
        forwarded(m.gguf, p, m.kv, after, moments, Ok(logits)) && p.is_for(k, m.cfg, token, pos);
    reveal(forwarded);
    lemma_output_op(p.cfg);
    let i = plan_of(p.cfg).len() - 1;
    assert(p.stepped(plan_of(p.cfg)[i], moments[i], moments[i + 1]));
}

/// Whether the arithmetic multiplies matrices row by row.
pub open spec fn multiplies_rows<K: Kernels>(k: &K) -> bool {
    forall|mat: Mat, w: Matrix<'_>, x: &[K::Num], r: Vec<K::Num>| #[trigger]
        call_ensures(K::matvec, (k, mat, &w, x), r) ==> product(k, w@, x@, r@)
}

/// A projection is the product of its matrix and the buffer that it reads,
/// where the arithmetic multiplies matrices row by row.
pub proof fn projections_are_products<'p, 'a, K: Kernels>(
    p: Pass<'p, 'a, K>,
    before: KvCache<K::Num>,
    after: KvCache<K::Num>,
    moments: Seq<Moment<K::Num>>,
    i: int,
    mat: Mat,
    src: Buf,
    dst: Buf,
)
    requires
        p.ran(before, after, moments),
        multiplies_rows(p.kernels),
        0 <= i < moments.len() - 1,
        plan_of(p.cfg)[i] == (Op::MatVec { mat, src, dst }),
        mat_in(p.weights@.layers.len() as int, mat),
    ensures
        product(
            p.kernels,
            mat_of(p.weights@, mat),
            moments[i].bufs.at(src),
            moments[i + 1].bufs.at(dst),
        ),
{
    assert(p.stepped(plan_of(p.cfg)[i], moments[i], moments[i + 1]));
    lemma_multiplied(p, mat, src, moments[i], moments[i + 1].bufs.at(dst));
}

/// What the arithmetic gives for a projection is the product.
pub(crate) proof fn lemma_multiplied<'p, 'a, K: Kernels>(
    p: Pass<'p, 'a, K>,
    mat: Mat,
    src: Buf,
    before: Moment<K::Num>,
    out: Seq<K::Num>,
)
    requires
        multiplies_rows(p.kernels),
        p.multiplied(mat, src, before, out),
        mat_in(p.weights@.layers.len() as int, mat),
    ensures
        product(p.kernels, mat_of(p.weights@, mat), before.bufs.at(src), out),
{
    let w = bound_mat(*p.weights, mat);
    assert(w@ == mat_of(p.weights@, mat));
    let (x, r) = choose|x: &[K::Num], r: Vec<K::Num>| #[trigger]
        call_ensures(K::matvec, (p.kernels, mat, &w, x), r) && x@ == before.bufs.at(src) && r@
            == out;
    assert(call_ensures(K::matvec, (p.kernels, mat, &w, x), r));
}

} // verus!
