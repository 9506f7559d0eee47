//! GGML tensor dtypes: F32, the two simplest block-quantized formats (Q8_0,
//! Q4_0), and Q6_K. Q8_0 and Q4_0 quantize the contiguous dimension in blocks
//! of 32 elements, each with its own half-precision scale `d`:
//!
//! - Q8_0 block: `d`, then 32 signed bytes; 34 bytes, `x[i] = d * q[i]`
//! - Q4_0 block: `d`, then 16 packed bytes; 18 bytes, `x[i] = d * (nibble[i] - 8)`
//!
//! Q6_K is a super-block of 256 elements: 6-bit quants, one signed sub-scale for
//! every 16 of them, and one half-precision super-scale.

use vstd::prelude::*;

use crate::bits::{half_bits, le_u32, read_half, read_u32, signed_byte, to_signed_byte};

verus! {

/// Elements per Q8_0 or Q4_0 block.
pub const QK: usize = 32;

/// Elements per k-quant super-block.
pub const QK_K: usize = 256;

/// A GGML tensor element type, as stored in each tensor info's type tag.
#[derive(Clone, Copy, Debug, PartialEq, Eq, Structural)]
pub enum GgmlType {
    F32,
    Q8_0,
    Q4_0,
    Q6K,
}

/// The bit pattern of a floating-point factor, in the precision that the file
/// stores it in.
#[derive(Clone, Copy, Debug, PartialEq, Eq, Structural)]
pub enum Scale {
    Single(u32),
    Half(u16),
}

/// One decoded tensor element, as three factors: its value is
/// `scale * sub * quant`.
#[derive(Clone, Copy, Debug, PartialEq, Eq, Structural)]
pub struct Element {
    pub scale: Scale,
    pub sub: i32,
    pub quant: i32,
}

/// The 6-bit quant of element `e` of a Q6_K super-block at `p`: the low four
/// bits lie in the first 128 bytes, the high two in the next 64.
pub open spec fn q6k_bits(raw: Seq<u8>, p: int, e: int) -> int {
    let (half, quarter, l) = (e / 128, (e % 128) / 32, e % 32);
    let packed = raw[p + 64 * half + 32 * (quarter % 2) + l];
    let low = if quarter < 2 {
        packed % 16
    } else {
        packed / 16
    };
    low + 16 * two_bits(raw[p + 128 + 32 * half + l], quarter)
}

/// Bits `2 * i` and `2 * i + 1` of a byte.
pub open spec fn two_bits(b: u8, i: int) -> int {
    if i == 0 {
        b as int % 4
    } else if i == 1 {
        b as int / 4 % 4
    } else if i == 2 {
        b as int / 16 % 4
    } else {
        b as int / 64
    }
}

impl GgmlType {
    /// The type tag that files use for this type.
    pub open spec fn tag(self) -> u32 {
        match self {
            GgmlType::F32 => 0,
            GgmlType::Q8_0 => 8,
            GgmlType::Q4_0 => 2,
            GgmlType::Q6K => 14,
        }
    }

    /// Elements per block.
    pub open spec fn elems(self) -> int {
        match self {
            GgmlType::F32 => 1,
            GgmlType::Q8_0 => 32,
            GgmlType::Q4_0 => 32,
            GgmlType::Q6K => 256,
        }
    }

    /// Bytes per block.
    pub open spec fn bytes(self) -> int {
        match self {
            GgmlType::F32 => 4,
            GgmlType::Q8_0 => 34,
            GgmlType::Q4_0 => 18,
            GgmlType::Q6K => 210,
        }
    }

    /// Element `i` of the tensor data `raw`.
    pub open spec fn element(self, raw: Seq<u8>, i: int) -> Element {
        self.block_element(raw, self.bytes() * (i / self.elems()), i % self.elems())
    }

    /// Element `j` of the block that starts at `raw[p]`.
    pub open spec fn block_element(self, raw: Seq<u8>, p: int, j: int) -> Element {
        match self {
            GgmlType::F32 => Element { scale: Scale::Single(le_u32(raw, p)), sub: 1, quant: 1 },
            GgmlType::Q8_0 => Element {
                scale: Scale::Half(half_bits(raw[p], raw[p + 1])),
                sub: 1,
                quant: signed_byte(raw[p + 2 + j]),
            },
            GgmlType::Q4_0 => {
                let packed = raw[p + 2 + j % 16];
                Element {
                    scale: Scale::Half(half_bits(raw[p], raw[p + 1])),
                    sub: 1,
                    quant: if j < 16 {
                        packed % 16 - 8
                    } else {
                        packed / 16 - 8
                    } as i32,
                }
            },
            GgmlType::Q6K => Element {
                scale: Scale::Half(half_bits(raw[p + 208], raw[p + 209])),
                sub: signed_byte(raw[p + 192 + j / 16]),
                quant: (q6k_bits(raw, p, j) - 32) as i32,
            },
        }
    }

    /// Map the GGUF tensor type tag to a `GgmlType`. F32 = 0, Q4_0 = 2, Q8_0 = 8,
    /// Q6_K = 14. Returns `None` for any other tag.
    pub fn from_u32(tag: u32) -> (t: Option<Self>)
        ensures
            match t {
                Some(x) => x.tag() == tag,
                None => forall|x: GgmlType| x.tag() != tag,
            },
    {
        if tag == 0 {
            Some(GgmlType::F32)
        } else if tag == 8 {
            Some(GgmlType::Q8_0)
        } else if tag == 2 {
            Some(GgmlType::Q4_0)
        } else if tag == 14 {
            Some(GgmlType::Q6K)
        } else {
            None
        }
    }

    /// Number of elements per quantization block. F32 = 1 (unquantized).
    pub fn block_elems(self) -> (n: usize)
        ensures
            n == self.elems(),
    {
        match self {
            GgmlType::F32 => 1,
            GgmlType::Q8_0 => QK,
            GgmlType::Q4_0 => QK,
            GgmlType::Q6K => QK_K,
        }
    }

    /// Number of bytes per quantization block. F32 = 4.
    pub fn block_bytes(self) -> (n: usize)
        ensures
            n == self.bytes(),
    {
        match self {
            GgmlType::F32 => 4,
            // scale and 32 signed bytes
            GgmlType::Q8_0 => 2 + QK,
            // scale and 32 nibbles
            GgmlType::Q4_0 => 2 + QK / 2,
            // low bits, high bits, sub-scales, super-scale
            GgmlType::Q6K => QK_K / 2 + QK_K / 4 + QK_K / 16 + 2,
        }
    }

    /// Decodes `raw` (exactly `out.len() / block_elems` blocks) into `out`, whose
    /// length must be a multiple of `block_elems`.
    pub fn dequantize(self, raw: &[u8], out: &mut [Element])
        requires
            old(out)@.len() as int % self.elems() == 0,
            raw@.len() == old(out)@.len() as int / self.elems() * self.bytes(),
        ensures
            final(out)@ == Seq::new(old(out)@.len(), |i: int| self.element(raw@, i)),
    {
        let n: usize = out.len();
        let be: usize = self.block_elems();
        let bb: usize = self.block_bytes();
        let ghost blocks: int = n as int / self.elems();
        assert(blocks * be == n) by (nonlinear_arith)
            requires
                blocks == n as int / be as int,
                n as int % be as int == 0,
                be > 0,
        ;
        let mut blk: usize = 0;
        let mut p: usize = 0;
        let mut e: usize = 0;
        while e < n
            invariant
                out@.len() == n,
                be == self.elems(),
                bb == self.bytes(),
                blocks * be == n,
                raw@.len() == blocks * bb,
                e == blk * be,
                p == blk * bb,
                0 <= blk <= blocks,
                forall|i: int| 0 <= i < e ==> out@[i] == self.element(raw@, i),
            decreases n - e,
        {
            assert(blk < blocks) by (nonlinear_arith)
                requires e == blk * be, blocks * be == n, e < n, be > 0;
            assert((blk + 1) * be <= n && (blk + 1) * bb <= raw@.len()) by (nonlinear_arith)
                requires blk < blocks, blocks * be == n, raw@.len() == blocks * bb, be > 0, bb > 0;
            assert((blk + 1) * be == e + be && (blk + 1) * bb == p + bb) by (nonlinear_arith)
                requires e == blk * be, p == blk * bb;
            assert(raw@.len() == raw.len());
            self.decode_block(raw, p, out, e, Ghost(blk as int));
            blk += 1;
            p += bb;
            e += be;
        }
        assert(out@ =~= Seq::new(n as nat, |i: int| self.element(raw@, i)));
    }

    /// Decodes the block number `blk`, at `raw[p..]`, into `out[e..]`.
    fn decode_block(
        self,
        raw: &[u8],
        p: usize,
        out: &mut [Element],
        e: usize,
        Ghost(blk): Ghost<int>,
    )
        requires
            0 <= blk,
            p == self.bytes() * blk,
            e == self.elems() * blk,
            p + self.bytes() <= raw@.len(),
            e + self.elems() <= old(out)@.len(),
        ensures
            final(out)@.len() == old(out)@.len(),
            forall|i: int|
                0 <= i < final(out)@.len() ==> #[trigger] final(out)@[i] == (if e <= i < e
                    + self.elems() {
                    self.element(raw@, i)
                } else {
                    old(out)@[i]
                }),
    {
        let n: usize = self.block_elems();
        let mut j: usize = 0;
        while j < n
            invariant
                n == self.elems(),
                0 <= j <= n,
                0 <= blk,
                p == self.bytes() * blk,
                e == self.elems() * blk,
                p + self.bytes() <= raw@.len(),
                e + self.elems() <= out@.len(),
                out@.len() == old(out)@.len(),
                forall|i: int|
                    0 <= i < out@.len() ==> #[trigger] out@[i] == (if e <= i < e + j {
                        self.element(raw@, i)
                    } else {
                        old(out)@[i]
                    }),
            decreases n - j,
        {
            let x: Element = self.decode_one(raw, p, j);
            out[e + j] = x;
            proof {
                let i: int = e + j;
                vstd::arithmetic::div_mod::lemma_fundamental_div_mod_converse(
                    i,
                    self.elems(),
                    blk,
                    j as int,
                );
                assert(x == self.element(raw@, i));
            }
            j += 1;
        }
    }

    /// Decodes element `j` of the block at `raw[p..]`.
    fn decode_one(self, raw: &[u8], p: usize, j: usize) -> (x: Element)
        requires
            j < self.elems(),
            p + self.bytes() <= raw@.len(),
        ensures
            x == self.block_element(raw@, p as int, j as int),
    {
        assert(raw@.len() == raw.len());
        match self {
            GgmlType::F32 => Element { scale: Scale::Single(read_u32(raw, p)), sub: 1, quant: 1 },
            GgmlType::Q8_0 => Element {
                scale: Scale::Half(read_half(raw[p], raw[p + 1])),
                sub: 1,
                quant: to_signed_byte(raw[p + 2 + j]),
            },
            GgmlType::Q4_0 => {
                let packed: u8 = raw[p + 2 + j % 16];
                Element {
                    scale: Scale::Half(read_half(raw[p], raw[p + 1])),
                    sub: 1,
                    quant: if j < QK / 2 {
                        (packed % 16) as i32 - 8
                    } else {
                        (packed / 16) as i32 - 8
                    },
                }
            },
            GgmlType::Q6K => {
                // two halves of 128 elements, each of four quarters that share
                // the bytes of the high bits
                let half: usize = j / 128;
                let quarter: usize = (j % 128) / 32;
                let l: usize = j % 32;
                let packed: u8 = raw[p + 64 * half + 32 * (quarter % 2) + l];
                let high: u8 = raw[p + 128 + 32 * half + l];
                let low: u8 = if quarter < 2 {
                    packed % 16
                } else {
                    packed / 16
                };
                let top: u8 = if quarter == 0 {
                    high % 4
                } else if quarter == 1 {
                    high / 4 % 4
                } else if quarter == 2 {
                    high / 16 % 4
                } else {
                    high / 64
                };
                Element {
                    scale: Scale::Half(read_half(raw[p + 208], raw[p + 209])),
                    sub: to_signed_byte(raw[p + 192 + j / 16]),
                    quant: low as i32 + 16 * (top as i32) - 32,
                }
            },
        }
    }
}

} // verus!
