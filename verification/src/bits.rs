//! Numbers as bit patterns: little-endian integers, and the two IEEE 754 binary
//! formats whose values the crate carries without computing with them.
//!
//! A single-precision number is a `u32` here, a half-precision one a `u16`.

use vstd::prelude::*;

verus! {

/// The little-endian `u32` at position `p`.
pub open spec fn le_u32(b: Seq<u8>, p: int) -> u32 {
    (b[p] + 0x100 * b[p + 1] + 0x1_0000 * b[p + 2] + 0x100_0000 * b[p + 3]) as u32
}

/// The little-endian `u64` at position `p`.
pub open spec fn le_u64(b: Seq<u8>, p: int) -> u64 {
    (le_u32(b, p) + 0x1_0000_0000 * le_u32(b, p + 4)) as u64
}

/// The two's-complement reading of a `u32`.
pub open spec fn as_signed(u: u32) -> i32 {
    if u < 0x8000_0000 {
        u as i32
    } else {
        (u - 0x1_0000_0000) as i32
    }
}

/// The two's-complement reading of a byte.
pub open spec fn signed_byte(b: u8) -> i32 {
    if b < 0x80 {
        b as i32
    } else {
        (b - 0x100) as i32
    }
}

/// Reads the little-endian `u32` at position `p`.
pub fn read_u32(b: &[u8], p: usize) -> (u: u32)
    requires
        p + 4 <= b@.len(),
    ensures
        u == le_u32(b@, p as int),
{
    assert(b@.len() == b.len());
    b[p] as u32 + 0x100 * (b[p + 1] as u32) + 0x1_0000 * (b[p + 2] as u32) + 0x100_0000 * (b[p
        + 3] as u32)
}

/// Reads the little-endian `u64` at position `p`.
pub fn read_u64(b: &[u8], p: usize) -> (u: u64)
    requires
        p + 8 <= b@.len(),
    ensures
        u == le_u64(b@, p as int),
{
    assert(b@.len() == b.len());
    read_u32(b, p) as u64 + 0x1_0000_0000 * (read_u32(b, p + 4) as u64)
}

/// Reinterprets a `u32` as a two's-complement `i32`.
pub fn to_signed(u: u32) -> (i: i32)
    ensures
        i == as_signed(u),
{
    if u < 0x8000_0000 {
        u as i32
    } else {
        (u as i64 - 0x1_0000_0000) as i32
    }
}

/// Reinterprets a byte as a two's-complement number.
pub fn to_signed_byte(b: u8) -> (i: i32)
    ensures
        i == signed_byte(b),
{
    if b < 0x80 {
        b as i32
    } else {
        b as i32 - 0x100
    }
}

/// Whether a bit pattern is a single-precision NaN.
pub open spec fn is_nan(bits: u32) -> bool {
    bits % 0x8000_0000 > 0x7F80_0000
}

/// Computes [`is_nan`].
pub fn nan(bits: u32) -> (b: bool)
    ensures
        b == is_nan(bits),
{
    bits % 0x8000_0000 > 0x7F80_0000
}

/// The place of a single-precision number in the numeric order: of two numbers
/// the greater has the greater key, and the two zeros share one. IEEE 754
/// leaves a NaN unordered; here it comes below every number.
pub open spec fn order_key(bits: u32) -> int {
    if is_nan(bits) {
        -0x8000_0000
    } else if bits < 0x8000_0000 {
        bits as int
    } else {
        0x8000_0000 - bits
    }
}

/// Computes [`order_key`].
pub fn order_of(bits: u32) -> (k: i64)
    ensures
        k == order_key(bits),
{
    if nan(bits) {
        -0x8000_0000
    } else if bits < 0x8000_0000 {
        bits as i64
    } else {
        0x8000_0000 - bits as i64
    }
}

/// The half-precision bit pattern that two little-endian bytes hold.
pub open spec fn half_bits(lo: u8, hi: u8) -> u16 {
    (lo + 0x100 * hi) as u16
}

/// Reads a half-precision bit pattern from its two bytes.
pub fn read_half(lo: u8, hi: u8) -> (h: u16)
    ensures
        h == half_bits(lo, hi),
{
    lo as u16 + 0x100 * (hi as u16)
}

} // verus!
