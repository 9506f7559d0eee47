//! Views of single-precision tensors.

use vstd::prelude::*;

use crate::bits::{le_u32, read_u32};

verus! {

/// A borrowed vector of single-precision numbers, as bit patterns.
#[derive(Clone, Copy)]
pub struct Vector<'a> {
    bytes: &'a [u8],
}

impl<'a> View for Vector<'a> {
    type V = Seq<u32>;

    closed spec fn view(&self) -> Seq<u32> {
        Seq::new((self.bytes@.len() / 4) as nat, |i: int| le_u32(self.bytes@, 4 * i))
    }
}

impl<'a> Vector<'a> {
    /// The vector that lies in `bytes`, four little-endian bytes a number.
    pub fn over(bytes: &'a [u8]) -> (v: Vector<'a>)
        ensures
            v@ == Seq::new((bytes@.len() / 4) as nat, |i: int| le_u32(bytes@, 4 * i)),
    {
        Vector { bytes }
    }

    /// The numbers, four little-endian bytes each.
    pub fn bytes(&self) -> (b: &'a [u8])
        ensures
            self@ == Seq::new((b@.len() / 4) as nat, |i: int| le_u32(b@, 4 * i)),
    {
        self.bytes
    }

    pub fn len(&self) -> (n: usize)
        ensures
            n == self@.len(),
    {
        self.bytes.len() / 4
    }

    /// The bit pattern of number `i`.
    pub fn get(&self, i: usize) -> (x: u32)
        requires
            i < self@.len(),
        ensures
            x == self@[i as int],
    {
        assert(self.bytes@.len() == self.bytes.len());
        read_u32(self.bytes, 4 * i)
    }
}

} // verus!
