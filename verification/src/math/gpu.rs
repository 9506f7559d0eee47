//! What the GPU backend decides before it runs a kernel: which kernel, how
//! many threads, and whether a weight is on the GPU already.

use vstd::hash_map::StringHashMap;
use vstd::prelude::*;
use vstd::string::StringExecFns;

use crate::gguf::GgmlType;

verus! {

/// Kernel name for a block-quantized type.
pub fn quant_kernel(dtype: GgmlType) -> (name: &'static str)
    requires
        dtype == GgmlType::Q8_0 || dtype == GgmlType::Q4_0,
    ensures
        name@ == (if dtype == GgmlType::Q8_0 {
            "matvec_q8_0"@
        } else {
            "matvec_q4_0"@
        }),
{
    match dtype {
        GgmlType::Q8_0 => "matvec_q8_0",
        _ => "matvec_q4_0",
    }
}

/// The width of a threadgroup for `n` threads: all of them, as far as the
/// pipeline's maximum allows, and never none.
pub fn threadgroup_width(max: u64, n: u64) -> (w: u64)
    ensures
        w >= 1,
        w == n || w == max || w == 1,
        max >= 1 && n >= 1 ==> w == (if n < max {
            n
        } else {
            max
        }),
        max == 0 || n == 0 ==> w == 1,
{
    let w: u64 = if n < max {
        n
    } else {
        max
    };
    if w == 0 {
        1
    } else {
        w
    }
}

/// The weights that are on the GPU: the number of bytes by tensor name.
pub struct Residency {
    sizes: StringHashMap<usize>,
}

/// Whether a weight of `len` bytes is there under a name.
pub open spec fn is_resident(r: Map<Seq<char>, usize>, name: Seq<char>, len: usize) -> bool {
    r.contains_key(name) && r[name] == len
}

impl View for Residency {
    type V = Map<Seq<char>, usize>;

    closed spec fn view(&self) -> Map<Seq<char>, usize> {
        self.sizes@
    }
}

impl Residency {
    /// No weight is on the GPU.
    pub fn new() -> (r: Residency)
        ensures
            r@ == Map::<Seq<char>, usize>::empty(),
    {
        Residency { sizes: StringHashMap::new() }
    }

    /// Asks for a weight: `true` if the buffer that is there serves it, `false`
    /// if it has to be uploaded, because there is none under its name or one of
    /// another size. It is there from then on.
    pub fn ask(&mut self, name: &str, len: usize) -> (reuse: bool)
        ensures
            reuse == is_resident(old(self)@, name@, len),
            final(self)@ == old(self)@.insert(name@, len),
    {
        let found: Option<usize> = match self.sizes.get(name) {
            Some(n) => Some(*n),
            None => None,
        };
        if let Some(n) = found {
            if n == len {
                assert(self@.insert(name@, len) =~= self@);
                return true;
            }
        }
        self.sizes.insert(String::from_str(name), len);
        false
    }
}

/// A weight is uploaded once: whatever else is asked for in between, under
/// other names, it is there the second time.
pub proof fn uploaded_once(
    r: Map<Seq<char>, usize>,
    name: Seq<char>,
    len: usize,
    other: Seq<char>,
    other_len: usize,
)
    requires
        other != name,
    ensures
        is_resident(r.insert(name, len), name, len),
        is_resident(r.insert(name, len).insert(other, other_len), name, len),
{
}

/// A weight of another size is never served from the buffer under its name.
pub proof fn resized_is_uploaded(r: Map<Seq<char>, usize>, name: Seq<char>, a: usize, b: usize)
    requires
        a != b,
    ensures
        !is_resident(r.insert(name, a), name, b),
{
}

} // verus!
