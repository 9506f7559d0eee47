//! The cache: every row stays where it was put.

use vstd::prelude::*;

use crate::kv_cache::KvCache;
use crate::model::config::Config;
use crate::model::llama::Model;

verus! {

/// Appending puts one row behind those of its layer, keys to keys and values to
/// values, and leaves every other layer as it was.
pub proof fn appending_adds_one_row<T: Copy>(
    c: &mut KvCache<T>,
    layer: usize,
    k: &[T],
    v: &[T],
    l: int,
)
    requires
        call_ensures(KvCache::<T>::append, (c, layer, k, v), ()),
        0 <= l < old(c).layers(),
    ensures
        l == layer ==> final(c).key_buf(l) == old(c).key_buf(l) + k@ && final(c).value_buf(l)
            == old(c).value_buf(l) + v@,
        l != layer ==> final(c).key_buf(l) == old(c).key_buf(l) && final(c).value_buf(l)
            == old(c).value_buf(l),
        final(c).layers() == old(c).layers(),
        final(c).heads() == old(c).heads(),
        final(c).dim() == old(c).dim(),
        final(c).positions() == old(c).positions(),
{
}

/// The numbers of head `h` in row `t` stand at `t` rows and `h` heads: rows are
/// laid one behind the other, and in a row the heads side by side.
pub proof fn heads_stand_in_their_row<T: Copy>(
    c: &KvCache<T>,
    layer: usize,
    t: usize,
    h: usize,
    keys: &[T],
    values: &[T],
    key: &[T],
    value: &[T],
    i: int,
)
    requires
        h < c.heads(),
        0 <= i < c.dim(),
        (t + 1) * (c.heads() * c.dim()) <= keys@.len(),
        (t + 1) * (c.heads() * c.dim()) <= values@.len(),
        call_ensures(KvCache::<T>::keys, (c, layer), keys),
        call_ensures(KvCache::<T>::values, (c, layer), values),
        call_ensures(KvCache::<T>::key, (c, layer, t, h), key),
        call_ensures(KvCache::<T>::value, (c, layer, t, h), value),
    ensures
        key@.len() == c.dim(),
        value@.len() == c.dim(),
        key@[i] == keys@[(t * c.heads() + h) * c.dim() + i],
        value@[i] == values@[(t * c.heads() + h) * c.dim() + i],
        keys@ == c.key_buf(layer as int),
        values@ == c.value_buf(layer as int),
{
    let (n, d) = (c.heads(), c.dim());
    let row = n * d;
    assert(t * row + h * d == (t * n + h) * d && 0 <= t * row + h * d && t * row + h * d + d <= (t
        + 1) * row) by (nonlinear_arith)
        requires
            row == n * d,
            0 <= t,
            0 <= h < n,
            0 <= d,
    ;
}

/// The rows of a layer are as many as fill its numbers, and a cache without rows
/// is empty.
pub proof fn rows_fill_the_layer<T: Copy>(
    c: &KvCache<T>,
    layer: usize,
    rows: usize,
    len: usize,
    empty: bool,
    context: usize,
)
    requires
        c.heads() * c.dim() > 0,
        call_ensures(KvCache::<T>::rows, (c, layer), rows),
        call_ensures(KvCache::<T>::len, (c,), len),
        call_ensures(KvCache::<T>::is_empty, (c,), empty),
        call_ensures(KvCache::<T>::context, (c,), context),
    ensures
        context == c.positions(),
        rows * (c.heads() * c.dim()) <= c.key_buf(layer as int).len() < (rows + 1) * (c.heads()
            * c.dim()),
        len * (c.heads() * c.dim()) <= c.key_buf(0).len() < (len + 1) * (c.heads() * c.dim()),
        empty <==> len == 0,
{
    let row = c.heads() * c.dim();
    let (a, b) = (c.key_buf(layer as int).len() as int, c.key_buf(0).len() as int);
    assert((a / row) * row <= a < (a / row + 1) * row) by (nonlinear_arith)
        requires
            row > 0,
    ;
    assert((b / row) * row <= b < (b / row + 1) * row) by (nonlinear_arith)
        requires
            row > 0,
    ;
    assert(b < row <==> b / row == 0) by (nonlinear_arith)
        requires
            row > 0,
            b >= 0,
    ;
}

/// A new cache, and one that was cleared, has no row in any layer.
pub proof fn new_and_cleared_are_bare<T: Copy>(
    n_layer: usize,
    n_head_kv: usize,
    head_dim: usize,
    context: usize,
    fresh: KvCache<T>,
    c: &mut KvCache<T>,
    l: int,
)
    requires
        call_ensures(KvCache::<T>::new, (n_layer, n_head_kv, head_dim, context), fresh),
        call_ensures(KvCache::<T>::clear, (c,), ()),
    ensures
        fresh.layers() == n_layer,
        fresh.heads() == n_head_kv,
        fresh.dim() == head_dim,
        fresh.positions() == context,
        0 <= l < n_layer ==> fresh.key_buf(l).len() == 0 && fresh.value_buf(l).len() == 0,
        0 <= l < old(c).layers() ==> final(c).key_buf(l).len() == 0 && final(c).value_buf(l).len()
            == 0,
        final(c).layers() == old(c).layers(),
        final(c).heads() == old(c).heads(),
        final(c).dim() == old(c).dim(),
        final(c).positions() == old(c).positions(),
{
}

/// Resetting a model drops all rows and nothing else; cutting its context never
/// lengthens it, and changes nothing else.
pub proof fn models_are_reset_and_cut<'a, T: Copy>(
    m: &mut Model<'a, T>,
    o: &mut Model<'a, T>,
    n: usize,
    l: int,
)
    requires
        call_ensures(Model::<'a, T>::reset, (m,), ()),
        call_ensures(Model::<'a, T>::cap_context, (o, n), ()),
    ensures
        final(m).cfg == old(m).cfg,
        final(m).tokenizer == old(m).tokenizer,
        final(m).gguf == old(m).gguf,
        0 <= l < final(m).kv.layers() ==> final(m).kv.key_buf(l).len() == 0
            && final(m).kv.value_buf(l).len() == 0,
        final(o).cfg.context_length <= n,
        final(o).cfg.context_length <= old(o).cfg.context_length,
        final(o).cfg.context_length == n || final(o).cfg.context_length
            == old(o).cfg.context_length,
        final(o).cfg == (Config {
            context_length: final(o).cfg.context_length,
            ..old(o).cfg
        }),
        final(o).tokenizer == old(o).tokenizer,
        final(o).gguf == old(o).gguf,
        final(o).kv == old(o).kv,
{
}

} // verus!
