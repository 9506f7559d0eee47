//! The arithmetic that a forward pass needs.
//!
//! The arithmetic is the caller's: [`Kernels`] lists it, and promises nothing
//! of its results. What is proved of the loops around it is stated over
//! whatever it gives.

use vstd::prelude::*;

use crate::gguf::dtype::Element;
use crate::model::plan::Mat;
use crate::model::weights::Matrix;

verus! {

/// The arithmetic of a forward pass, on numbers of some type. A factor that
/// comes out of a model file is handed on as the bit pattern of a
/// single-precision number.
pub trait Kernels {
    type Num: Copy;

    fn zero(&self) -> Self::Num;

    /// `a + b`.
    fn plus(&self, a: Self::Num, b: Self::Num) -> Self::Num;

    /// `acc + share * value`.
    fn mix(&self, acc: Self::Num, share: Self::Num, value: Self::Num) -> Self::Num;

    /// The value of a decoded element.
    fn value(&self, e: Element) -> Self::Num;

    /// The inner product of a decoded block and as many numbers.
    fn block_dot(&self, block: &[Element], x: &[Self::Num]) -> Self::Num
        requires
            block@.len() == x@.len(),
    ;

    /// The inner product of `x` with every row of a matrix, in the order of the
    /// rows.
    fn matvec(&self, mat: Mat, w: &Matrix<'_>, x: &[Self::Num]) -> Vec<Self::Num>
        requires
            x@.len() == w@.cols,
    ;

    /// `1 / sqrt(mean(x^2) + eps)`.
    fn norm_scale(&self, x: &[Self::Num], eps: u32) -> Self::Num;

    /// `x * scale * weight`.
    fn scaled(&self, x: Self::Num, scale: Self::Num, weight: u32) -> Self::Num;

    /// Pair `i` of a head of `head_dim` numbers, rotated for position `pos` by
    /// the angle `pos * base^(-2i / head_dim)`.
    fn rotate(
        &self,
        pos: usize,
        i: usize,
        head_dim: usize,
        base: u32,
        pair: (Self::Num, Self::Num),
    ) -> (Self::Num, Self::Num)
        requires
            i < head_dim / 2,
    ;

    /// How much a query attends to a key.
    fn score(&self, query: &[Self::Num], key: &[Self::Num]) -> Self::Num
        requires
            query@.len() == key@.len(),
    ;

    /// What is below every number.
    fn lowest(&self) -> Self::Num;

    /// The larger of two numbers.
    fn larger(&self, a: Self::Num, b: Self::Num) -> Self::Num;

    /// `exp(x - top)`.
    fn exp_below(&self, x: Self::Num, top: Self::Num) -> Self::Num;

    /// `a / b`.
    fn quotient(&self, a: Self::Num, b: Self::Num) -> Self::Num;

    /// `silu(gate) * up`.
    fn gated(&self, gate: Self::Num, up: Self::Num) -> Self::Num;
}

} // verus!
