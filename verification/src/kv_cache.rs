//! Per-layer key/value cache.
//!
//! Inference attends one position against a growing cache. Each layer stores
//! keys and values as flat buffers, one row of `n_head_kv * head_dim` numbers
//! appended per decode step. The cache carries the numbers and computes with
//! none of them.

use vstd::prelude::*;
use vstd::slice::slice_subrange;

verus! {

/// A per-layer cache of keys and values.
pub struct KvCache<T> {
    n_head_kv: usize,
    head_dim: usize,
    row: usize,
    context: usize,
    k: Vec<Vec<T>>,
    v: Vec<Vec<T>>,
}

/// Row `t` of a buffer of rows of `row` numbers.
pub open spec fn row_of<T>(buf: Seq<T>, row: int, t: int) -> Seq<T> {
    buf.subrange(t * row, t * row + row)
}

/// The part of row `t` that belongs to head `h`.
pub open spec fn head_of<T>(buf: Seq<T>, row: int, head_dim: int, t: int, h: int) -> Seq<T> {
    buf.subrange(t * row + h * head_dim, t * row + h * head_dim + head_dim)
}

proof fn lemma_head_range(n_head_kv: int, head_dim: int, rows: int, t: int, h: int)
    by (nonlinear_arith)
    requires
        0 <= t < rows,
        0 <= h < n_head_kv,
        0 <= head_dim,
    ensures
        0 <= t * (n_head_kv * head_dim),
        0 <= h * head_dim,
        h * head_dim + head_dim <= n_head_kv * head_dim,
        t * (n_head_kv * head_dim) + n_head_kv * head_dim <= rows * (n_head_kv * head_dim),
{
}

fn empty_buffers<T>(n: usize) -> (v: Vec<Vec<T>>)
    ensures
        v@.len() == n,
        forall|i: int| 0 <= i < n ==> (#[trigger] v@[i])@ == Seq::<T>::empty(),
{
    let mut v: Vec<Vec<T>> = Vec::new();
    let mut i: usize = 0;
    while i < n
        invariant
            i <= n,
            v@.len() == i,
            forall|j: int| 0 <= j < i ==> (#[trigger] v@[j])@ == Seq::<T>::empty(),
        decreases n - i,
    {
        v.push(Vec::new());
        i += 1;
    }
    v
}

impl<T> KvCache<T> {
    /// The number of layers.
    pub closed spec fn layers(&self) -> int {
        self.k@.len() as int
    }

    /// The kv heads of a row.
    pub closed spec fn heads(&self) -> int {
        self.n_head_kv as int
    }

    /// The numbers of one head in a row.
    pub closed spec fn dim(&self) -> int {
        self.head_dim as int
    }

    /// The numbers of a row.
    pub open spec fn row_len(&self) -> int {
        self.heads() * self.dim()
    }

    /// All keys of a layer, one row behind the other.
    pub closed spec fn key_buf(&self, layer: int) -> Seq<T> {
        self.k@[layer]@
    }

    /// All values of a layer, one row behind the other.
    pub closed spec fn value_buf(&self, layer: int) -> Seq<T> {
        self.v@[layer]@
    }

    /// The number of positions that the cache is made for.
    pub closed spec fn positions(&self) -> int {
        self.context as int
    }

    /// Whether keys and values have the same layers, with as many numbers in
    /// each, and rows the stated size.
    pub closed spec fn wf(&self) -> bool {
        &&& self.k@.len() == self.v@.len()
        &&& self.row == self.n_head_kv * self.head_dim
        &&& forall|l: int|
            0 <= l < self.k@.len() ==> (#[trigger] self.k@[l])@.len() == self.v@[l]@.len()
    }

    /// The number of rows of a layer.
    pub open spec fn row_count(&self, layer: int) -> int {
        if self.row_len() == 0 {
            0
        } else {
            self.key_buf(layer).len() as int / self.row_len()
        }
    }
}

/// Whether `after` is the cache `before` with a row of keys and one of values
/// appended to a layer.
pub open spec fn appended<T>(
    before: KvCache<T>,
    after: KvCache<T>,
    layer: int,
    k: Seq<T>,
    v: Seq<T>,
) -> bool {
    &&& after.wf()
    &&& after.positions() == before.positions()
    &&& after.layers() == before.layers()
    &&& after.heads() == before.heads()
    &&& after.dim() == before.dim()
    &&& after.key_buf(layer) == before.key_buf(layer) + k
    &&& after.value_buf(layer) == before.value_buf(layer) + v
    &&& forall|l: int|
        0 <= l < before.layers() && l != layer ==> #[trigger] after.key_buf(l) == before.key_buf(l)
            && after.value_buf(l) == before.value_buf(l)
}

impl<T: Copy> KvCache<T> {
    /// A cache without rows. Its buffers grow as rows are appended.
    pub fn new(n_layer: usize, n_head_kv: usize, head_dim: usize, context: usize) -> (c: KvCache<T>)
        requires
            n_head_kv * head_dim <= usize::MAX,
        ensures
            c.wf(),
            c.positions() == context,
            c.layers() == n_layer,
            c.heads() == n_head_kv,
            c.dim() == head_dim,
            forall|l: int|
                0 <= l < n_layer ==> #[trigger] c.key_buf(l) == Seq::<T>::empty() && c.value_buf(l)
                    == Seq::<T>::empty(),
    {
        KvCache {
            n_head_kv,
            head_dim,
            row: n_head_kv * head_dim,
            context,
            k: empty_buffers(n_layer),
            v: empty_buffers(n_layer),
        }
    }

    /// Append this step's key/value rows for `layer`.
    pub fn append(&mut self, layer: usize, k: &[T], v: &[T])
        requires
            old(self).wf(),
            layer < old(self).layers(),
            k@.len() == old(self).row_len(),
            v@.len() == old(self).row_len(),
        ensures
            appended(*old(self), *final(self), layer as int, k@, v@),
    {
        extend(&mut self.k, layer, k);
        extend(&mut self.v, layer, v);
    }

    /// Cached keys for `layer`.
    pub fn keys(&self, layer: usize) -> (b: &[T])
        requires
            self.wf(),
            layer < self.layers(),
        ensures
            b@ == self.key_buf(layer as int),
    {
        self.k[layer].as_slice()
    }

    /// Cached values for `layer`.
    pub fn values(&self, layer: usize) -> (b: &[T])
        requires
            self.wf(),
            layer < self.layers(),
        ensures
            b@ == self.value_buf(layer as int),
    {
        self.v[layer].as_slice()
    }

    /// Number of positions currently cached, read from layer 0.
    pub fn len(&self) -> (n: usize)
        requires
            self.wf(),
            self.layers() > 0 || self.row_len() == 0,
        ensures
            n == self.row_count(0),
    {
        if self.row == 0 {
            0
        } else {
            self.k[0].len() / self.row
        }
    }

    /// Number of rows of `layer`.
    pub fn rows(&self, layer: usize) -> (n: usize)
        requires
            self.wf(),
            layer < self.layers(),
        ensures
            n == self.row_count(layer as int),
            n * self.row_len() <= self.key_buf(layer as int).len(),
            n * self.row_len() <= self.value_buf(layer as int).len(),
    {
        let ghost len = self.key_buf(layer as int).len() as int;
        assert(self.k@[layer as int]@.len() == self.v@[layer as int]@.len());
        if self.row == 0 {
            assert(0 * self.row_len() == 0);
            return 0;
        }
        let n: usize = self.k[layer].len() / self.row;
        assert(n * self.row <= len) by (nonlinear_arith)
            requires
                n == len / self.row as int,
                self.row > 0,
                len >= 0,
        ;
        n
    }

    pub fn is_empty(&self) -> (b: bool)
        requires
            self.wf(),
            self.layers() > 0 || self.row_len() == 0,
        ensures
            b == (self.row_len() == 0 || self.key_buf(0).len() < self.row_len()),
    {
        proof {
            let (n, row) = (self.key_buf(0).len() as int, self.row_len());
            if row > 0 {
                assert((n / row == 0) == (n < row)) by (nonlinear_arith)
                    requires
                        n >= 0,
                        row > 0,
                ;
            }
            assert(row >= 0) by (nonlinear_arith)
                requires
                    row == self.heads() * self.dim(),
                    self.heads() >= 0,
                    self.dim() >= 0,
            ;
        }
        self.len() == 0
    }

    /// The number of positions that the cache is made for.
    pub fn context(&self) -> (n: usize)
        ensures
            n == self.positions(),
    {
        self.context
    }

    /// The key of kv head `h` at position `t` of a layer.
    pub fn key(&self, layer: usize, t: usize, h: usize) -> (b: &[T])
        requires
            self.wf(),
            layer < self.layers(),
            h < self.heads(),
            (t + 1) * self.row_len() <= self.key_buf(layer as int).len(),
        ensures
            b@ == head_of(
                self.key_buf(layer as int),
                self.row_len(),
                self.dim(),
                t as int,
                h as int,
            ),
    {
        self.head(&self.k[layer], t, h)
    }

    /// The value of kv head `h` at position `t` of a layer.
    pub fn value(&self, layer: usize, t: usize, h: usize) -> (b: &[T])
        requires
            self.wf(),
            layer < self.layers(),
            h < self.heads(),
            (t + 1) * self.row_len() <= self.value_buf(layer as int).len(),
        ensures
            b@ == head_of(
                self.value_buf(layer as int),
                self.row_len(),
                self.dim(),
                t as int,
                h as int,
            ),
    {
        self.head(&self.v[layer], t, h)
    }

    fn head<'a>(&self, buf: &'a Vec<T>, t: usize, h: usize) -> (b: &'a [T])
        requires
            self.wf(),
            h < self.heads(),
            (t + 1) * self.row_len() <= buf@.len(),
        ensures
            b@ == head_of(buf@, self.row_len(), self.dim(), t as int, h as int),
    {
        proof {
            lemma_head_range(
                self.n_head_kv as int,
                self.head_dim as int,
                t + 1,
                t as int,
                h as int,
            );
            assert(buf@.len() == buf.len());
        }
        let start: usize = t * self.row + h * self.head_dim;
        slice_subrange(buf.as_slice(), start, start + self.head_dim)
    }

    /// Drops all rows.
    pub fn clear(&mut self)
        requires
            old(self).wf(),
        ensures
            final(self).wf(),
            final(self).positions() == old(self).positions(),
            final(self).layers() == old(self).layers(),
            final(self).heads() == old(self).heads(),
            final(self).dim() == old(self).dim(),
            forall|l: int|
                0 <= l < old(self).layers() ==> #[trigger] final(self).key_buf(l)
                    == Seq::<T>::empty() && final(self).value_buf(l) == Seq::<T>::empty(),
    {
        clear_all(&mut self.k);
        clear_all(&mut self.v);
    }
}

fn extend<T: Copy>(bufs: &mut Vec<Vec<T>>, i: usize, x: &[T])
    requires
        i < old(bufs)@.len(),
    ensures
        final(bufs)@.len() == old(bufs)@.len(),
        final(bufs)@[i as int]@ == old(bufs)@[i as int]@ + x@,
        forall|j: int|
            0 <= j < old(bufs)@.len() && j != i ==> #[trigger] final(bufs)@[j] == old(bufs)@[j],
{
    let mut j: usize = 0;
    assert(old(bufs)@[i as int]@ + x@.take(0) =~= old(bufs)@[i as int]@);
    while j < x.len()
        invariant
            i < old(bufs)@.len(),
            j <= x@.len(),
            bufs@.len() == old(bufs)@.len(),
            bufs@[i as int]@ == old(bufs)@[i as int]@ + x@.take(j as int),
            forall|m: int|
                0 <= m < old(bufs)@.len() && m != i ==> #[trigger] bufs@[m] == old(bufs)@[m],
        decreases x@.len() - j,
    {
        bufs[i].push(x[j]);
        assert(x@.take(j + 1) =~= x@.take(j as int).push(x@[j as int]));
        assert(bufs@[i as int]@ =~= old(bufs)@[i as int]@ + x@.take(j + 1));
        j += 1;
    }
    assert(x@.take(j as int) =~= x@);
}

fn clear_all<T>(bufs: &mut Vec<Vec<T>>)
    ensures
        final(bufs)@.len() == old(bufs)@.len(),
        forall|j: int|
            0 <= j < old(bufs)@.len() ==> (#[trigger] final(bufs)@[j])@ == Seq::<T>::empty(),
{
    let mut i: usize = 0;
    while i < bufs.len()
        invariant
            i <= bufs@.len(),
            bufs@.len() == old(bufs)@.len(),
            forall|j: int| 0 <= j < i ==> (#[trigger] bufs@[j])@ == Seq::<T>::empty(),
        decreases bufs@.len() - i,
    {
        bufs[i].clear();
        i += 1;
    }
}

/// What an append does to the rows of a layer: the new row comes behind the
/// old ones, which stay.
pub proof fn append_adds_a_row<T>(buf: Seq<T>, x: Seq<T>, row: int, n: int, t: int)
    requires
        buf.len() == n * row,
        x.len() == row,
        0 <= t <= n,
    ensures
        (buf + x).len() == (n + 1) * row,
        row_of(buf + x, row, t) == (if t == n {
            x
        } else {
            row_of(buf, row, t)
        }),
{
    assert((n + 1) * row == n * row + row) by (nonlinear_arith);
    assert(0 <= t * row <= n * row) by (nonlinear_arith)
        requires
            0 <= t <= n,
            0 <= row,
    ;
    if t == n {
        assert(row_of(buf + x, row, t) =~= x);
    } else {
        assert(t * row + row <= n * row) by (nonlinear_arith)
            requires
                0 <= t < n,
                0 <= row,
        ;
        assert(row_of(buf + x, row, t) =~= row_of(buf, row, t));
    }
}

/// The length counts the rows: a buffer of `n` rows has the length `n`.
pub proof fn length_counts_rows(n: int, row: int)
    requires
        0 <= n,
        0 < row,
    ensures
        n * row / row == n,
{
    assert(n * row / row == n) by (nonlinear_arith)
        requires
            0 < row,
    ;
}

/// A row is its heads, one behind the other.
pub proof fn head_is_part_of_row<T>(
    buf: Seq<T>,
    heads: int,
    dim: int,
    n: int,
    t: int,
    h: int,
)
    requires
        buf.len() == n * (heads * dim),
        0 <= t < n,
        0 <= h < heads,
        0 <= dim,
    ensures
        head_of(buf, heads * dim, dim, t, h) == row_of(buf, heads * dim, t).subrange(
            h * dim,
            h * dim + dim,
        ),
{
    lemma_head_range(heads, dim, n, t, h);
    assert(head_of(buf, heads * dim, dim, t, h) =~= row_of(buf, heads * dim, t).subrange(
        h * dim,
        h * dim + dim,
    ));
}

} // verus!
