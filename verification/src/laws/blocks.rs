//! Tensor blocks: what was packed into the bytes is what is read from them.

use vstd::prelude::*;

use crate::gguf::dtype::{q6k_bits, two_bits, Element, GgmlType, Scale};

verus! {

/// The byte of a signed number in two's complement.
pub open spec fn byte_of_signed(x: i8) -> u8 {
    if x >= 0 {
        x as u8
    } else {
        (x + 0x100) as u8
    }
}

/// A block of 32 signed bytes with a half-precision scale before them.
pub open spec fn q8_packed(h: u16, quants: Seq<i8>) -> Seq<u8> {
    Seq::new(
        34,
        |i: int|
            if i == 0 {
                (h % 0x100) as u8
            } else if i == 1 {
                (h / 0x100) as u8
            } else {
                byte_of_signed(quants[i - 2])
            },
    )
}

/// A block of 32 four-bit numbers with a half-precision scale before them: byte
/// `i` of the 16 holds numbers `i` and `i + 16`.
pub open spec fn q4_packed(h: u16, quants: Seq<int>) -> Seq<u8> {
    Seq::new(
        18,
        |i: int|
            if i == 0 {
                (h % 0x100) as u8
            } else if i == 1 {
                (h / 0x100) as u8
            } else {
                (quants[i - 2] + 16 * quants[i + 14]) as u8
            },
    )
}

/// A super-block of 256 six-bit numbers. The low four bits of the numbers come
/// first, those of numbers 64 apart in one byte; then the high two bits, those
/// of four numbers 32 apart in one byte; then 16 signed sub-scales, and a
/// half-precision scale.
pub open spec fn q6k_packed(h: u16, subs: Seq<i8>, quants: Seq<int>) -> Seq<u8> {
    Seq::new(
        210,
        |i: int|
            if i < 128 {
                let j = 128 * (i / 64) + i % 64;
                (quants[j] % 16 + 16 * (quants[j + 64] % 16)) as u8
            } else if i < 192 {
                let j = 128 * ((i - 128) / 32) + i % 32;
                (quants[j] / 16 + 4 * (quants[j + 32] / 16) + 16 * (quants[j + 64] / 16) + 64 * (
                quants[j + 96] / 16)) as u8
            } else if i < 208 {
                byte_of_signed(subs[i - 192])
            } else if i == 208 {
                (h % 0x100) as u8
            } else {
                (h / 0x100) as u8
            },
    )
}

/// Numbers of `n` bits.
pub open spec fn all_below(quants: Seq<int>, n: int) -> bool {
    forall|i: int| 0 <= i < quants.len() ==> 0 <= #[trigger] quants[i] < n
}

proof fn lemma_part(raw: Seq<u8>, block: Seq<u8>, size: int, b: int, i: int)
    requires
        0 <= b,
        0 < size,
        size * (b + 1) <= raw.len(),
        raw.subrange(size * b, size * b + size) == block,
        0 <= i < size,
    ensures
        raw[size * b + i] == block[i],
{
    assert(size * (b + 1) == size * b + size && size * b >= 0) by (nonlinear_arith)
        requires 0 <= b, 0 < size;
    assert(raw.subrange(size * b, size * b + size)[i] == raw[size * b + i]);
}

proof fn lemma_place(t: GgmlType, b: int, j: int)
    requires
        0 <= b,
        0 <= j < t.elems(),
    ensures
        (t.elems() * b + j) / t.elems() == b,
        (t.elems() * b + j) % t.elems() == j,
{
    vstd::arithmetic::div_mod::lemma_fundamental_div_mod_converse(
        t.elems() * b + j,
        t.elems(),
        b,
        j,
    );
}

/// Element `i` of a tensor of single-precision numbers is the number whose four
/// bytes stand at `4 * i`.
pub proof fn single_reads_what_was_written(raw: Seq<u8>, i: int, x: u32)
    requires
        0 <= i,
        4 * i + 4 <= raw.len(),
        raw[4 * i] == x as int % 0x100,
        raw[4 * i + 1] == x as int / 0x100 % 0x100,
        raw[4 * i + 2] == x as int / 0x1_0000 % 0x100,
        raw[4 * i + 3] == x as int / 0x100_0000,
    ensures
        GgmlType::F32.element(raw, i) == (Element { scale: Scale::Single(x), sub: 1, quant: 1 }),
{
}

/// A block of signed bytes reads back as what was packed into it: every element
/// has the scale of the block, bit for bit, and its own byte.
pub proof fn q8_reads_what_was_packed(raw: Seq<u8>, b: int, h: u16, quants: Seq<i8>, j: int)
    requires
        0 <= b,
        34 * (b + 1) <= raw.len(),
        quants.len() == 32,
        raw.subrange(34 * b, 34 * b + 34) == q8_packed(h, quants),
        0 <= j < 32,
    ensures
        GgmlType::Q8_0.element(raw, 32 * b + j) == (Element {
            scale: Scale::Half(h),
            sub: 1,
            quant: quants[j] as i32,
        }),
{
    let block = q8_packed(h, quants);
    lemma_place(GgmlType::Q8_0, b, j);
    lemma_part(raw, block, 34, b, 0);
    lemma_part(raw, block, 34, b, 1);
    lemma_part(raw, block, 34, b, j + 2);
    assert(block[j + 2] == byte_of_signed(quants[j]));
}

/// A block of four-bit numbers reads back as what was packed into it: every
/// element has the scale of the block, bit for bit, and its own number less 8.
pub proof fn q4_reads_what_was_packed(raw: Seq<u8>, b: int, h: u16, quants: Seq<int>, j: int)
    requires
        0 <= b,
        18 * (b + 1) <= raw.len(),
        quants.len() == 32,
        all_below(quants, 16),
        raw.subrange(18 * b, 18 * b + 18) == q4_packed(h, quants),
        0 <= j < 32,
    ensures
        GgmlType::Q4_0.element(raw, 32 * b + j) == (Element {
            scale: Scale::Half(h),
            sub: 1,
            quant: (quants[j] - 8) as i32,
        }),
{
    let block = q4_packed(h, quants);
    lemma_place(GgmlType::Q4_0, b, j);
    lemma_part(raw, block, 18, b, 0);
    lemma_part(raw, block, 18, b, 1);
    let i = j % 16;
    lemma_part(raw, block, 18, b, i + 2);
    let (lo, hi) = (quants[i], quants[i + 16]);
    assert(block[i + 2] == (lo + 16 * hi) as u8);
    assert(0 <= lo < 16 && 0 <= hi < 16);
}

proof fn lemma_low_bits(h: u16, subs: Seq<i8>, quants: Seq<int>, j: int)
    requires
        quants.len() == 256,
        all_below(quants, 64),
        0 <= j < 256,
    ensures
        ({
            let packed = q6k_packed(h, subs, quants)[64 * (j / 128) + 32 * ((j % 128) / 32 % 2) + j
                % 32];
            quants[j] % 16 == (if (j % 128) / 32 < 2 {
                packed as int % 16
            } else {
                packed as int / 16
            })
        }),
{
    let (half, quarter, l) = (j / 128, (j % 128) / 32, j % 32);
    let i = 64 * half + 32 * (quarter % 2) + l;
    let a = 128 * half + 32 * (quarter % 2) + l;
    assert(i / 64 == half && i % 64 == 32 * (quarter % 2) + l);
    assert(q6k_packed(h, subs, quants)[i] == (quants[a] % 16 + 16 * (quants[a + 64] % 16)) as u8);
    assert(j == a || j == a + 64);
    assert(j == a <==> quarter < 2);
}

proof fn lemma_pairs(q0: int, q1: int, q2: int, q3: int)
    requires
        0 <= q0 < 4,
        0 <= q1 < 4,
        0 <= q2 < 4,
        0 <= q3 < 4,
    ensures
        ({
            let b = q0 + 4 * q1 + 16 * q2 + 64 * q3;
            &&& 0 <= b < 256
            &&& two_bits(b as u8, 0) == q0
            &&& two_bits(b as u8, 1) == q1
            &&& two_bits(b as u8, 2) == q2
            &&& two_bits(b as u8, 3) == q3
        }),
{
    let b = q0 + 4 * q1 + 16 * q2 + 64 * q3;
    assert(b / 4 == q1 + 4 * q2 + 16 * q3);
    assert(b / 16 == q2 + 4 * q3);
    assert(b / 64 == q3);
}

proof fn lemma_high_bits(h: u16, subs: Seq<i8>, quants: Seq<int>, j: int)
    requires
        quants.len() == 256,
        all_below(quants, 64),
        0 <= j < 256,
    ensures
        two_bits(q6k_packed(h, subs, quants)[128 + 32 * (j / 128) + j % 32], (j % 128) / 32)
            == quants[j] / 16,
{
    let (half, quarter, l) = (j / 128, (j % 128) / 32, j % 32);
    let i = 128 + 32 * half + l;
    let z = 128 * half + l;
    assert((i - 128) / 32 == half && i % 32 == l);
    let (q0, q1, q2, q3) = (
        quants[z] / 16,
        quants[z + 32] / 16,
        quants[z + 64] / 16,
        quants[z + 96] / 16,
    );
    assert(q6k_packed(h, subs, quants)[i] == (q0 + 4 * q1 + 16 * q2 + 64 * q3) as u8);
    assert(0 <= quants[z] < 64 && 0 <= quants[z + 32] < 64);
    assert(0 <= quants[z + 64] < 64 && 0 <= quants[z + 96] < 64);
    lemma_pairs(q0, q1, q2, q3);
    assert(j == z + 32 * quarter);
}

/// A super-block reads back as what was packed into it: every element has the
/// scale of the super-block, bit for bit, the sub-scale of its sixteen, and its
/// own number less 32.
pub proof fn q6k_reads_what_was_packed(
    raw: Seq<u8>,
    b: int,
    h: u16,
    subs: Seq<i8>,
    quants: Seq<int>,
    j: int,
)
    requires
        0 <= b,
        210 * (b + 1) <= raw.len(),
        subs.len() == 16,
        quants.len() == 256,
        all_below(quants, 64),
        raw.subrange(210 * b, 210 * b + 210) == q6k_packed(h, subs, quants),
        0 <= j < 256,
    ensures
        GgmlType::Q6K.element(raw, 256 * b + j) == (Element {
            scale: Scale::Half(h),
            sub: subs[j / 16] as i32,
            quant: (quants[j] - 32) as i32,
        }),
{
    let block = q6k_packed(h, subs, quants);
    let p = 210 * b;
    lemma_place(GgmlType::Q6K, b, j);
    lemma_part(raw, block, 210, b, 208);
    lemma_part(raw, block, 210, b, 209);
    lemma_part(raw, block, 210, b, 192 + j / 16);
    assert(block[192 + j / 16] == byte_of_signed(subs[j / 16]));
    let (half, quarter, l) = (j / 128, (j % 128) / 32, j % 32);
    let low = 64 * half + 32 * (quarter % 2) + l;
    let high = 128 + 32 * half + l;
    lemma_part(raw, block, 210, b, low);
    lemma_part(raw, block, 210, b, high);
    lemma_low_bits(h, subs, quants, j);
    lemma_high_bits(h, subs, quants, j);
    assert(q6k_bits(raw, p, j) == quants[j] % 16 + 16 * (quants[j] / 16));
    assert(GgmlType::Q6K.block_element(raw, p, j).quant == (quants[j] - 32) as i32);
}

/// Super-blocks of different scales are told apart, whichever bit it is that the
/// scales differ in, and by every one of their elements.
pub proof fn scales_are_told_apart(
    raw: Seq<u8>,
    b: int,
    h: u16,
    subs: Seq<i8>,
    quants: Seq<int>,
    other: Seq<u8>,
    c: int,
    g: u16,
    other_subs: Seq<i8>,
    other_quants: Seq<int>,
    j: int,
)
    requires
        0 <= b,
        210 * (b + 1) <= raw.len(),
        subs.len() == 16,
        quants.len() == 256,
        all_below(quants, 64),
        raw.subrange(210 * b, 210 * b + 210) == q6k_packed(h, subs, quants),
        0 <= c,
        210 * (c + 1) <= other.len(),
        other_subs.len() == 16,
        other_quants.len() == 256,
        all_below(other_quants, 64),
        other.subrange(210 * c, 210 * c + 210) == q6k_packed(g, other_subs, other_quants),
        h != g,
        0 <= j < 256,
    ensures
        GgmlType::Q6K.element(raw, 256 * b + j).scale != GgmlType::Q6K.element(
            other,
            256 * c + j,
        ).scale,
{
    q6k_reads_what_was_packed(raw, b, h, subs, quants, j);
    q6k_reads_what_was_packed(other, c, g, other_subs, other_quants, j);
}

/// The type tags of files, and the size of a block of each type: a tag is known
/// if it is one of these four.
pub proof fn types_have_their_tags(tag: u32, t: Option<GgmlType>)
    requires
        call_ensures(GgmlType::from_u32, (tag,), t),
    ensures
        t == Some(GgmlType::F32) <==> tag == 0,
        t == Some(GgmlType::Q4_0) <==> tag == 2,
        t == Some(GgmlType::Q8_0) <==> tag == 8,
        t == Some(GgmlType::Q6K) <==> tag == 14,
{
    assert(GgmlType::F32.tag() == 0 && GgmlType::Q4_0.tag() == 2);
    assert(GgmlType::Q8_0.tag() == 8 && GgmlType::Q6K.tag() == 14);
}

/// A block of each type has as many elements as its layout says, and is as long:
/// one number of four bytes; 32 numbers and two bytes of scale; 256 six-bit
/// numbers, 16 sub-scales and two bytes of scale.
pub proof fn blocks_have_their_sizes(t: GgmlType, elems: usize, bytes: usize)
    requires
        call_ensures(GgmlType::block_elems, (t,), elems),
        call_ensures(GgmlType::block_bytes, (t,), bytes),
    ensures
        t == GgmlType::F32 ==> elems == 1 && bytes == 4,
        t == GgmlType::Q8_0 ==> elems == 32 && bytes == 34,
        t == GgmlType::Q4_0 ==> elems == 32 && bytes == 18,
        t == GgmlType::Q6K ==> elems == 256 && bytes == 210,
        t.elems() == elems && t.bytes() == bytes,
{
}

/// Dequantizing a tensor of super-blocks gives, for every super-block, what was
/// packed into it.
pub proof fn dequantized_is_what_was_packed(
    raw: &[u8],
    out: &mut [Element],
    b: int,
    h: u16,
    subs: Seq<i8>,
    quants: Seq<int>,
    j: int,
)
    requires
        0 <= b,
        256 * (b + 1) <= old(out)@.len(),
        210 * (b + 1) <= raw@.len(),
        subs.len() == 16,
        quants.len() == 256,
        all_below(quants, 64),
        raw@.subrange(210 * b, 210 * b + 210) == q6k_packed(h, subs, quants),
        0 <= j < 256,
        call_ensures(GgmlType::dequantize, (GgmlType::Q6K, raw, out), ()),
    ensures
        final(out)@.len() == old(out)@.len(),
        final(out)@[256 * b + j] == (Element {
            scale: Scale::Half(h),
            sub: subs[j / 16] as i32,
            quant: (quants[j] - 32) as i32,
        }),
{
    q6k_reads_what_was_packed(raw@, b, h, subs, quants, j);
}

/// Dequantizing a tensor gives every element of it, in order.
pub proof fn dequantized_elements(t: GgmlType, raw: &[u8], out: &mut [Element], i: int)
    requires
        0 <= i < old(out)@.len(),
        call_ensures(GgmlType::dequantize, (t, raw, out), ()),
    ensures
        final(out)@.len() == old(out)@.len(),
        final(out)@[i] == t.element(raw@, i),
{
}

} // verus!
