//! Matrix-vector products against a block-quantized weight matrix.
//!
//! Weights stay quantized in memory. A row is multiplied with `x` one block at
//! a time: a block is decoded into a small buffer and used at once.

use vstd::prelude::*;
use vstd::slice::slice_subrange;

use crate::gguf::dtype::{Element, Scale};
use crate::math::kernels::Kernels;
use crate::model::weights::{blocks_make_the_row, fits, Matrix, MatrixView};

verus! {

/// Whether `out` are the values of row `m` of a matrix.
pub open spec fn row_values<K: Kernels>(k: &K, w: MatrixView, m: int, out: Seq<K::Num>) -> bool {
    &&& out.len() == w.cols
    &&& forall|j: int|
        0 <= j < w.cols ==> call_ensures(K::value, (k, w.element(m, j)), #[trigger] out[j])
}

/// As many elements as asked for, all zero.
fn blank(n: usize) -> (v: Vec<Element>)
    ensures
        v@.len() == n,
{
    let mut v: Vec<Element> = Vec::new();
    while v.len() < n
        invariant
            v@.len() <= n,
        decreases n - v@.len(),
    {
        v.push(Element { scale: Scale::Single(0), sub: 0, quant: 0 });
    }
    v
}

/// The values of row `m` of a matrix.
pub fn embed<K: Kernels>(k: &K, w: &Matrix<'_>, m: usize) -> (out: Vec<K::Num>)
    requires
        m < w@.rows,
    ensures
        row_values(k, w@, m as int, out@),
{
    let n: usize = w.cols();
    let mut row: Vec<Element> = blank(n);
    w.dequant_row(m, row.as_mut_slice());
    let mut out: Vec<K::Num> = Vec::new();
    let mut j: usize = 0;
    while j < n
        invariant
            n == w@.cols,
            j <= n,
            out@.len() == j,
            row@ == Seq::new(n as nat, |i: int| w@.element(m as int, i)),
            forall|i: int|
                0 <= i < j ==> call_ensures(
                    K::value,
                    (k, w@.element(m as int, i)),
                    #[trigger] out@[i],
                ),
        decreases n - j,
    {
        out.push(k.value(row[j]));
        j += 1;
    }
    out
}

/// Whether `d` is the inner product of block `b` of row `m` and the numbers of
/// `x` that stand against it.
pub open spec fn block_product<K: Kernels>(
    k: &K,
    w: MatrixView,
    m: int,
    b: int,
    x: Seq<K::Num>,
    d: K::Num,
) -> bool {
    let be = w.dtype.elems();
    exists|block: &[Element], part: &[K::Num]| #[trigger]
        call_ensures(K::block_dot, (k, block, part), d) && block@ == Seq::new(
            be as nat,
            |j: int| w.element(m, b * be + j),
        ) && part@ == x.subrange(b * be, b * be + be)
}

/// Whether `next` is `sum` with the product of block `b` added.
pub open spec fn block_added<K: Kernels>(
    k: &K,
    w: MatrixView,
    m: int,
    b: int,
    x: Seq<K::Num>,
    sum: K::Num,
    next: K::Num,
) -> bool {
    exists|d: K::Num| #[trigger]
        block_product(k, w, m, b, x, d) && call_ensures(K::plus, (k, sum, d), next)
}

/// Whether `sums` are the running sums of a row: zero, and then the product of
/// one block after the other.
pub open spec fn block_sums<K: Kernels>(
    k: &K,
    w: MatrixView,
    m: int,
    x: Seq<K::Num>,
    sums: Seq<K::Num>,
) -> bool {
    &&& sums.len() > 0
    &&& call_ensures(K::zero, (k,), sums[0])
    &&& forall|b: int|
        0 <= b < sums.len() - 1 ==> block_added(k, w, m, b, x, #[trigger] sums[b], sums[b + 1])
}

/// Whether `out` is the inner product of row `m` and `x`, block by block.
pub open spec fn row_product<K: Kernels>(
    k: &K,
    w: MatrixView,
    m: int,
    x: Seq<K::Num>,
    out: K::Num,
) -> bool {
    exists|sums: Seq<K::Num>| #[trigger]
        block_sums(k, w, m, x, sums) && sums.len() == w.cols / w.dtype.elems() + 1 && sums.last()
            == out
}

/// `<row m, x>`, one block at a time.
pub fn row_dot<K: Kernels>(k: &K, w: &Matrix<'_>, m: usize, x: &[K::Num]) -> (out: K::Num)
    requires
        m < w@.rows,
        x@.len() == w@.cols,
    ensures
        row_product(k, w@, m as int, x@, out),
{
    let (be, n) = (w.dtype().block_elems(), w.row_blocks());
    assert(x@.len() == x.len());
    let mut block: Vec<Element> = blank(be);
    let mut sum: K::Num = k.zero();
    let ghost mut sums: Seq<K::Num> = seq![sum];
    let mut b: usize = 0;
    while b < n
        invariant
            m < w@.rows,
            x@.len() == w@.cols,
            be == w@.dtype.elems(),
            n == w@.cols / w@.dtype.elems(),
            fits(w@.bytes.len() as int, w@.dtype, w@.rows, w@.cols),
            x@.len() <= usize::MAX,
            block@.len() == be,
            b <= n,
            sums.len() == b + 1,
            sums.last() == sum,
            block_sums(k, w@, m as int, x@, sums),
        decreases n - b,
    {
        let raw: &[u8] = w.block(m, b);
        assert(be as int % be as int == 0 && be as int / be as int * raw@.len() == raw@.len())
            by (nonlinear_arith)
            requires
                be > 0,
        ;
        w.dtype().dequantize(raw, block.as_mut_slice());
        assert(0 <= b * be && b * be + be <= w@.cols) by (nonlinear_arith)
            requires
                0 <= b < n,
                n == w@.cols / be as int,
                be > 0,
        ;
        let part: &[K::Num] = slice_subrange(x, b * be, b * be + be);
        let decoded: &[Element] = block.as_slice();
        let d: K::Num = k.block_dot(decoded, part);
        let next: K::Num = k.plus(sum, d);
        proof {
            let elements = Seq::new(be as nat, |j: int| w@.element(m as int, b * be + j));
            assert forall|j: int| 0 <= j < be implies #[trigger] decoded@[j] == elements[j] by {
                blocks_make_the_row(w@, m as int, b as int, j);
            }
            assert(decoded@ =~= elements);
            assert(block_product(k, w@, m as int, b as int, x@, d));
            assert(block_added(k, w@, m as int, b as int, x@, sum, next));
            let more = sums.push(next);
            assert forall|c: int| 0 <= c < more.len() - 1 implies block_added(
                k,
                w@,
                m as int,
                c,
                x@,
                #[trigger] more[c],
                more[c + 1],
            ) by {
                assert(more[c] == sums[c]);
            }
            sums = more;
        }
        sum = next;
        b += 1;
    }
    sum
}

/// Whether `out` is the product of a matrix and `x`.
pub open spec fn product<K: Kernels>(
    k: &K,
    w: MatrixView,
    x: Seq<K::Num>,
    out: Seq<K::Num>,
) -> bool {
    &&& out.len() == w.rows
    &&& forall|m: int| 0 <= m < w.rows ==> row_product(k, w, m, x, #[trigger] out[m])
}

/// `out[m] = <row m, x>`, one row after the other.
pub fn matvec<K: Kernels>(k: &K, w: &Matrix<'_>, x: &[K::Num]) -> (out: Vec<K::Num>)
    requires
        x@.len() == w@.cols,
    ensures
        product(k, w@, x@, out@),
{
    let n: usize = w.rows();
    let mut out: Vec<K::Num> = Vec::new();
    while out.len() < n
        invariant
            x@.len() == w@.cols,
            n == w@.rows,
            out@.len() <= n,
            forall|m: int|
                0 <= m < out@.len() ==> row_product(k, w@, m, x@, #[trigger] out@[m]),
        decreases n - out@.len(),
    {
        let d: K::Num = row_dot(k, w, out.len(), x);
        out.push(d);
    }
    out
}

} // verus!
