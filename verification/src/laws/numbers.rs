//! Numbers: what their bytes are, and how their bit patterns compare.

use vstd::prelude::*;

use crate::bits::{
    as_signed, half_bits, is_nan, le_u32, le_u64, nan, order_key, order_of, read_half, read_u32,
    read_u64, signed_byte, to_signed, to_signed_byte,
};

verus! {

/// Whether single-precision number `x` is below `y`, by sign and magnitude: a
/// negative number is below a positive one, of two positive ones the one of the
/// smaller magnitude is below the other, and of two negative ones the one of the
/// greater magnitude. The two zeros are equal. The magnitude is the lower 31
/// bits, the sign the uppermost.
pub open spec fn number_below(x: u32, y: u32) -> bool {
    let (a, b) = (x as int % 0x8000_0000, y as int % 0x8000_0000);
    let (minus_x, minus_y) = (x >= 0x8000_0000, y >= 0x8000_0000);
    if minus_x && minus_y {
        a > b
    } else if minus_x {
        a > 0 || b > 0
    } else if minus_y {
        false
    } else {
        a < b
    }
}

/// Whether a bit pattern is a number: its exponent is not all ones, or its
/// fraction is zero.
pub open spec fn is_number(x: u32) -> bool {
    x as int / 0x80_0000 % 0x100 != 0xFF || x as int % 0x80_0000 == 0
}

/// A NaN is a pattern whose exponent is all ones and whose fraction is not zero.
pub proof fn nan_is_no_number(x: u32, b: bool)
    requires
        call_ensures(nan, (x,), b),
    ensures
        b == !is_number(x),
        is_nan(x) == !is_number(x),
{
}

/// The places of two numbers in the order compare as the numbers do.
pub proof fn places_are_ordered(x: u32, y: u32, kx: i64, ky: i64)
    requires
        is_number(x),
        is_number(y),
        call_ensures(order_of, (x,), kx),
        call_ensures(order_of, (y,), ky),
    ensures
        kx < ky <==> number_below(x, y),
        order_key(x) < order_key(y) <==> number_below(x, y),
        kx == ky <==> x == y || (x as int % 0x8000_0000 == 0 && y as int % 0x8000_0000 == 0),
{
}

/// A NaN comes below every number.
pub proof fn nan_is_last(x: u32, y: u32, kx: i64, ky: i64)
    requires
        !is_number(x),
        call_ensures(order_of, (x,), kx),
        call_ensures(order_of, (y,), ky),
    ensures
        is_number(y) ==> kx < ky,
        is_number(y) ==> order_key(x) < order_key(y),
        !is_number(y) ==> kx == ky,
        !is_number(y) ==> order_key(x) == order_key(y),
{
}

/// A 32-bit number has the bytes that it is read from, the lowest first.
pub proof fn u32_has_its_bytes(b: &[u8], p: usize, u: u32)
    requires
        p + 4 <= b@.len(),
        call_ensures(read_u32, (b, p), u),
    ensures
        u as int % 0x100 == b@[p as int],
        u as int / 0x100 % 0x100 == b@[p + 1],
        u as int / 0x1_0000 % 0x100 == b@[p + 2],
        u as int / 0x100_0000 == b@[p + 3],
        u == le_u32(b@, p as int),
{
}

/// A 64-bit number is the sum of the bytes that it is read from, each with the
/// weight of its place, the lowest first.
pub proof fn u64_has_its_bytes(b: &[u8], p: usize, u: u64)
    requires
        p + 8 <= b@.len(),
        call_ensures(read_u64, (b, p), u),
    ensures
        u == b@[p as int] + 0x100 * b@[p + 1] + 0x1_0000 * b@[p + 2] + 0x100_0000 * b@[p + 3]
            + 0x1_0000_0000 * b@[p + 4] + 0x100_0000_0000 * b@[p + 5] + 0x1_0000_0000_0000 * b@[p
            + 6] + 0x100_0000_0000_0000 * b@[p + 7],
        u == le_u64(b@, p as int),
{
}

/// A 16-bit number has the two bytes that it is read from, the lower first.
pub proof fn half_has_its_bytes(lo: u8, hi: u8, h: u16)
    requires
        call_ensures(read_half, (lo, hi), h),
    ensures
        h as int % 0x100 == lo,
        h as int / 0x100 == hi,
        h == half_bits(lo, hi),
{
}

/// A signed number differs from its unsigned pattern by nothing, or by 2 to the
/// number of its bits, and only where it is negative.
pub proof fn signed_is_congruent(u: u32, i: i32, b: u8, j: i32)
    requires
        call_ensures(to_signed, (u,), i),
        call_ensures(to_signed_byte, (b,), j),
    ensures
        i >= 0 ==> u == i,
        i < 0 ==> u == i + 0x1_0000_0000,
        i == as_signed(u),
        -0x80 <= j < 0x80,
        j >= 0 ==> b == j,
        j < 0 ==> b == j + 0x100,
        j == signed_byte(b),
{
}

} // verus!
