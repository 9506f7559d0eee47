//! Products: a row of a matrix meets every number of a vector once, each at its
//! own place.

use vstd::prelude::*;

use crate::gguf::dtype::Element;
use crate::math::kernels::Kernels;
use crate::math::quant::{block_added, block_product, block_sums, matvec, row_dot, row_product};
use crate::model::weights::{Matrix, MatrixView};

verus! {

/// The sum of the products of the first `n` elements and numbers.
pub open spec fn dot<T>(
    block: Seq<Element>,
    x: Seq<T>,
    weight: spec_fn(Element) -> real,
    val: spec_fn(T) -> real,
    n: int,
) -> real
    decreases n,
{
    if n <= 0 {
        0real
    } else {
        dot(block, x, weight, val, n - 1) + weight(block[n - 1]) * val(x[n - 1])
    }
}

/// Whether the arithmetic of products is that of the real numbers: `val` is the
/// value of a number, `weight` that of an element.
pub open spec fn multiplies_exactly<K: Kernels>(
    k: &K,
    weight: spec_fn(Element) -> real,
    val: spec_fn(K::Num) -> real,
) -> bool {
    &&& forall|z: K::Num| #[trigger] call_ensures(K::zero, (k,), z) ==> val(z) == 0real
    &&& forall|a: K::Num, b: K::Num, c: K::Num| #[trigger]
        call_ensures(K::plus, (k, a, b), c) ==> val(c) == val(a) + val(b)
    &&& forall|block: &[Element], x: &[K::Num], c: K::Num| #[trigger]
        call_ensures(K::block_dot, (k, block, x), c) ==> val(c) == dot(
            block@,
            x@,
            weight,
            val,
            block@.len() as int,
        )
}

/// The elements of row `m` of a matrix.
pub open spec fn row_elements(w: MatrixView, m: int) -> Seq<Element> {
    Seq::new(w.cols as nat, |j: int| w.element(m, j))
}

/// Over the real numbers, number `m` of a product is the sum of the products of
/// the elements of row `m` and the numbers of the vector, all of them.
pub proof fn product_is_row_by_row<K: Kernels>(
    k: &K,
    w: &Matrix<'_>,
    x: &[K::Num],
    out: Vec<K::Num>,
    weight: spec_fn(Element) -> real,
    val: spec_fn(K::Num) -> real,
    m: int,
)
    requires
        multiplies_exactly(k, weight, val),
        x@.len() == w@.cols,
        w@.cols % w@.dtype.elems() == 0,
        call_ensures(matvec::<K>, (k, w, x), out),
        0 <= m < w@.rows,
    ensures
        out@.len() == w@.rows,
        val(out@[m]) == dot(row_elements(w@, m), x@, weight, val, w@.cols),
{
    lemma_row(k, w@, m, x@, out@[m], weight, val);
}

/// Over the real numbers, the product of a row is the sum of the products of its
/// elements and the numbers of the vector.
pub proof fn row_product_is_the_sum<K: Kernels>(
    k: &K,
    w: &Matrix<'_>,
    m: usize,
    x: &[K::Num],
    out: K::Num,
    weight: spec_fn(Element) -> real,
    val: spec_fn(K::Num) -> real,
)
    requires
        multiplies_exactly(k, weight, val),
        x@.len() == w@.cols,
        w@.cols % w@.dtype.elems() == 0,
        call_ensures(row_dot::<K>, (k, w, m, x), out),
    ensures
        val(out) == dot(row_elements(w@, m as int), x@, weight, val, w@.cols),
{
    lemma_row(k, w@, m as int, x@, out, weight, val);
}

proof fn lemma_row<K: Kernels>(
    k: &K,
    w: MatrixView,
    m: int,
    x: Seq<K::Num>,
    out: K::Num,
    weight: spec_fn(Element) -> real,
    val: spec_fn(K::Num) -> real,
)
    requires
        multiplies_exactly(k, weight, val),
        x.len() == w.cols,
        w.cols % w.dtype.elems() == 0,
        row_product(k, w, m, x, out),
    ensures
        val(out) == dot(row_elements(w, m), x, weight, val, w.cols),
{
    let be = w.dtype.elems();
    let n = w.cols / be;
    assert(n * be == w.cols && n >= 0) by (nonlinear_arith)
        requires
            n == w.cols / be,
            w.cols % be == 0,
            w.cols >= 0,
            be > 0,
    ;
    let sums = choose|sums: Seq<K::Num>| #[trigger]
        block_sums(k, w, m, x, sums) && sums.len() == n + 1 && sums.last() == out;
    lemma_blocks(k, w, m, x, sums, weight, val, n, n);
}

proof fn lemma_blocks<K: Kernels>(
    k: &K,
    w: MatrixView,
    m: int,
    x: Seq<K::Num>,
    sums: Seq<K::Num>,
    weight: spec_fn(Element) -> real,
    val: spec_fn(K::Num) -> real,
    n: int,
    b: int,
)
    requires
        multiplies_exactly(k, weight, val),
        x.len() == w.cols,
        block_sums(k, w, m, x, sums),
        sums.len() == n + 1,
        0 <= b <= n,
        n * w.dtype.elems() == w.cols,
    ensures
        val(sums[b]) == dot(row_elements(w, m), x, weight, val, b * w.dtype.elems()),
    decreases b,
{
    let be = w.dtype.elems();
    if b > 0 {
        let c = b - 1;
        lemma_blocks(k, w, m, x, sums, weight, val, n, c);
        assert(block_added(k, w, m, c, x, sums[c], sums[c + 1]));
        let d = choose|d: K::Num| #[trigger]
            block_product(k, w, m, c, x, d) && call_ensures(K::plus, (k, sums[c], d), sums[c + 1]);
        let (block, part) = choose|block: &[Element], part: &[K::Num]| #[trigger]
            call_ensures(K::block_dot, (k, block, part), d) && block@ == Seq::new(
                be as nat,
                |j: int| w.element(m, c * be + j),
            ) && part@ == x.subrange(c * be, c * be + be);
        assert(call_ensures(K::block_dot, (k, block, part), d));
        assert(b * be == c * be + be && c * be >= 0 && c * be + be <= w.cols) by (nonlinear_arith)
            requires
                c == b - 1,
                0 <= c,
                b <= n,
                n * be == w.cols,
                be > 0,
        ;
        lemma_part(w, m, x, block@, part@, weight, val, c * be, be);
    } else {
        assert(0 * be == 0);
    }
}

proof fn lemma_part<T>(
    w: MatrixView,
    m: int,
    x: Seq<T>,
    block: Seq<Element>,
    part: Seq<T>,
    weight: spec_fn(Element) -> real,
    val: spec_fn(T) -> real,
    start: int,
    i: int,
)
    requires
        0 <= start,
        0 <= i <= block.len(),
        start + block.len() <= w.cols,
        w.cols <= x.len(),
        block == Seq::new(block.len(), |j: int| w.element(m, start + j)),
        part == x.subrange(start, start + block.len()),
    ensures
        dot(row_elements(w, m), x, weight, val, start + i) == dot(
            row_elements(w, m),
            x,
            weight,
            val,
            start,
        ) + dot(block, part, weight, val, i),
    decreases i,
{
    if i > 0 {
        lemma_part(w, m, x, block, part, weight, val, start, i - 1);
        assert(block[i - 1] == row_elements(w, m)[start + i - 1]);
        assert(part[i - 1] == x[start + i - 1]);
    }
}

} // verus!
