//! The byte layout as a grammar: what every position of a file reads as.
//!
//! Each `get_*` function reads one item at a position and gives the item with
//! the position behind it, or the error that the bytes there call for.

use vstd::prelude::*;
use vstd::utf8::{decode_utf8, valid_utf8};

use crate::bits::{as_signed, le_u32, le_u64};
use crate::gguf::dtype::GgmlType;

verus! {

/// The data section starts at a multiple of this.
pub const ALIGNMENT: usize = 32;

pub const T_UINT32: u32 = 4;

pub const T_INT32: u32 = 5;

pub const T_FLOAT32: u32 = 6;

pub const T_BOOL: u32 = 7;

pub const T_STRING: u32 = 8;

pub const T_ARRAY: u32 = 9;

/// Why a file, or a tensor of it, could not be read.
#[derive(Clone, Copy, Debug, PartialEq, Eq, Structural)]
pub enum GgufError {
    /// An item would end past the last position that can be addressed.
    OffsetOverflow,
    /// An item would end past the end of the file.
    UnexpectedEof,
    /// The file does not start with the magic bytes.
    BadMagic,
    /// The file has another version than 3.
    UnsupportedVersion(u32),
    /// A string is not valid UTF-8.
    InvalidUtf8,
    /// A metadata value has a type tag that is not read.
    UnsupportedValueType(u32),
    /// A metadata array has an element type tag that is not read.
    UnsupportedArrayType(u32),
    /// A tensor has a type tag that is not read.
    UnsupportedTensorType(u32),
    /// The data section would start past the end of the file.
    DataStartPastEnd,
    /// No tensor has the name that was asked for.
    NoSuchTensor,
    /// The tensor has another type than F32.
    NotF32(GgmlType),
    /// The element count is no multiple of the block size.
    PartialBlock,
    /// The element count or the byte range of a tensor cannot be addressed.
    TensorRangeOverflow,
    /// The data of a tensor would end past the end of the file.
    TensorPastEnd,
}

/// A parsed metadata value. A single-precision number is its bit pattern.
#[derive(Clone, Debug)]
pub enum MetaValue {
    U32(u32),
    F32(u32),
    Bool(bool),
    Str(String),
    ArrStr(Vec<String>),
    ArrI32(Vec<i32>),
    ArrF32(Vec<u32>),
}

/// A metadata value, with texts and arrays as sequences.
#[verifier::ext_equal]
pub enum MetaView {
    U32(u32),
    F32(u32),
    Bool(bool),
    Str(Seq<char>),
    ArrStr(Seq<Seq<char>>),
    ArrI32(Seq<i32>),
    ArrF32(Seq<u32>),
}

/// The texts of a list of strings.
pub open spec fn texts(v: Seq<String>) -> Seq<Seq<char>> {
    Seq::new(v.len(), |i: int| v[i]@)
}

impl View for MetaValue {
    type V = MetaView;

    open spec fn view(&self) -> MetaView {
        match self {
            MetaValue::U32(x) => MetaView::U32(*x),
            MetaValue::F32(x) => MetaView::F32(*x),
            MetaValue::Bool(x) => MetaView::Bool(*x),
            MetaValue::Str(x) => MetaView::Str(x@),
            MetaValue::ArrStr(x) => MetaView::ArrStr(texts(x@)),
            MetaValue::ArrI32(x) => MetaView::ArrI32(x@),
            MetaValue::ArrF32(x) => MetaView::ArrF32(x@),
        }
    }
}

/// One entry of the tensor index.
#[verifier::ext_equal]
pub struct TensorView {
    pub name: Seq<char>,
    pub dims: Seq<u64>,
    pub dtype: GgmlType,
    pub offset: u64,
}

/// What a file says: its metadata entries and its tensor index, in file order,
/// and where the tensor data starts.
#[verifier::ext_equal]
pub struct Content {
    pub entries: Seq<(Seq<char>, MetaView)>,
    pub tensors: Seq<TensorView>,
    pub data_start: int,
}

/// The view of what a read gave, or its error.
pub open spec fn viewed<T: View, E>(r: Result<T, E>) -> Result<T::V, E> {
    match r {
        Ok(x) => Ok(x@),
        Err(e) => Err(e),
    }
}

/// Whether `got`, with the position `pos` behind it, is what the grammar has.
pub open spec fn agrees<T>(
    got: Result<T, GgufError>,
    pos: int,
    want: Result<(T, int), GgufError>,
) -> bool {
    match got {
        Ok(x) => want == Ok::<(T, int), GgufError>((x, pos)),
        Err(e) => want == Err::<(T, int), GgufError>(e),
    }
}

/// The position behind `n` bytes at `p`.
pub open spec fn get_bytes(b: Seq<u8>, p: int, n: int) -> Result<int, GgufError> {
    if p + n > u64::MAX {
        Err(GgufError::OffsetOverflow)
    } else if p + n > b.len() {
        Err(GgufError::UnexpectedEof)
    } else {
        Ok(p + n)
    }
}

pub open spec fn get_u8(b: Seq<u8>, p: int) -> Result<(u8, int), GgufError> {
    match get_bytes(b, p, 1) {
        Ok(q) => Ok((b[p], q)),
        Err(e) => Err(e),
    }
}

pub open spec fn get_u32(b: Seq<u8>, p: int) -> Result<(u32, int), GgufError> {
    match get_bytes(b, p, 4) {
        Ok(q) => Ok((le_u32(b, p), q)),
        Err(e) => Err(e),
    }
}

pub open spec fn get_i32(b: Seq<u8>, p: int) -> Result<(i32, int), GgufError> {
    match get_u32(b, p) {
        Ok((u, q)) => Ok((as_signed(u), q)),
        Err(e) => Err(e),
    }
}

pub open spec fn get_u64(b: Seq<u8>, p: int) -> Result<(u64, int), GgufError> {
    match get_bytes(b, p, 8) {
        Ok(q) => Ok((le_u64(b, p), q)),
        Err(e) => Err(e),
    }
}

/// A string: its length in bytes, then the bytes.
pub open spec fn get_string(b: Seq<u8>, p: int) -> Result<(Seq<char>, int), GgufError> {
    match get_u64(b, p) {
        Err(e) => Err(e),
        Ok((n, q)) => match get_bytes(b, q, n as int) {
            Err(e) => Err(e),
            Ok(r) => if valid_utf8(b.subrange(q, r)) {
                Ok((decode_utf8(b.subrange(q, r)), r))
            } else {
                Err(GgufError::InvalidUtf8)
            },
        },
    }
}

/// `n` strings in a row.
pub open spec fn get_strings(b: Seq<u8>, p: int, n: nat) -> Result<
    (Seq<Seq<char>>, int),
    GgufError,
>
    decreases n,
{
    if n == 0 {
        Ok((seq![], p))
    } else {
        match get_strings(b, p, (n - 1) as nat) {
            Err(e) => Err(e),
            Ok((v, q)) => match get_string(b, q) {
                Err(e) => Err(e),
                Ok((x, r)) => Ok((v.push(x), r)),
            },
        }
    }
}

/// `n` unsigned 32-bit numbers in a row.
pub open spec fn get_u32s(b: Seq<u8>, p: int, n: nat) -> Result<(Seq<u32>, int), GgufError>
    decreases n,
{
    if n == 0 {
        Ok((seq![], p))
    } else {
        match get_u32s(b, p, (n - 1) as nat) {
            Err(e) => Err(e),
            Ok((v, q)) => match get_u32(b, q) {
                Err(e) => Err(e),
                Ok((x, r)) => Ok((v.push(x), r)),
            },
        }
    }
}

/// `n` unsigned 64-bit numbers in a row.
pub open spec fn get_u64s(b: Seq<u8>, p: int, n: nat) -> Result<(Seq<u64>, int), GgufError>
    decreases n,
{
    if n == 0 {
        Ok((seq![], p))
    } else {
        match get_u64s(b, p, (n - 1) as nat) {
            Err(e) => Err(e),
            Ok((v, q)) => match get_u64(b, q) {
                Err(e) => Err(e),
                Ok((x, r)) => Ok((v.push(x), r)),
            },
        }
    }
}

/// The elements of an array with element type tag `inner`.
pub open spec fn get_array(b: Seq<u8>, p: int, inner: u32, n: nat) -> Result<
    (MetaView, int),
    GgufError,
> {
    if inner == T_STRING {
        match get_strings(b, p, n) {
            Ok((v, q)) => Ok((MetaView::ArrStr(v), q)),
            Err(e) => Err(e),
        }
    } else if inner == T_INT32 {
        match get_u32s(b, p, n) {
            Ok((v, q)) => Ok((MetaView::ArrI32(v.map_values(|u: u32| as_signed(u))), q)),
            Err(e) => Err(e),
        }
    } else if inner == T_FLOAT32 {
        match get_u32s(b, p, n) {
            Ok((v, q)) => Ok((MetaView::ArrF32(v), q)),
            Err(e) => Err(e),
        }
    } else {
        Err(GgufError::UnsupportedArrayType(inner))
    }
}

/// A metadata value with type tag `tag`.
pub open spec fn get_value(b: Seq<u8>, p: int, tag: u32) -> Result<(MetaView, int), GgufError> {
    if tag == T_UINT32 {
        match get_u32(b, p) {
            Ok((x, q)) => Ok((MetaView::U32(x), q)),
            Err(e) => Err(e),
        }
    } else if tag == T_FLOAT32 {
        match get_u32(b, p) {
            Ok((x, q)) => Ok((MetaView::F32(x), q)),
            Err(e) => Err(e),
        }
    } else if tag == T_BOOL {
        match get_u8(b, p) {
            Ok((x, q)) => Ok((MetaView::Bool(x != 0), q)),
            Err(e) => Err(e),
        }
    } else if tag == T_STRING {
        match get_string(b, p) {
            Ok((x, q)) => Ok((MetaView::Str(x), q)),
            Err(e) => Err(e),
        }
    } else if tag == T_ARRAY {
        match get_u32(b, p) {
            Err(e) => Err(e),
            Ok((inner, q)) => match get_u64(b, q) {
                Err(e) => Err(e),
                Ok((n, r)) => get_array(b, r, inner, n as nat),
            },
        }
    } else {
        Err(GgufError::UnsupportedValueType(tag))
    }
}

/// A metadata entry: key, value type tag, value.
pub open spec fn get_entry(b: Seq<u8>, p: int) -> Result<
    ((Seq<char>, MetaView), int),
    GgufError,
> {
    match get_string(b, p) {
        Err(e) => Err(e),
        Ok((key, q)) => match get_u32(b, q) {
            Err(e) => Err(e),
            Ok((tag, r)) => match get_value(b, r, tag) {
                Err(e) => Err(e),
                Ok((value, s)) => Ok(((key, value), s)),
            },
        },
    }
}

/// `n` metadata entries in a row.
pub open spec fn get_entries(b: Seq<u8>, p: int, n: nat) -> Result<
    (Seq<(Seq<char>, MetaView)>, int),
    GgufError,
>
    decreases n,
{
    if n == 0 {
        Ok((seq![], p))
    } else {
        match get_entries(b, p, (n - 1) as nat) {
            Err(e) => Err(e),
            Ok((v, q)) => match get_entry(b, q) {
                Err(e) => Err(e),
                Ok((x, r)) => Ok((v.push(x), r)),
            },
        }
    }
}

/// The type with tag `tag`, for a tag that one has.
pub open spec fn type_of_tag(tag: u32) -> Option<GgmlType> {
    if exists|t: GgmlType| #[trigger] t.tag() == tag {
        Some(choose|t: GgmlType| #[trigger] t.tag() == tag)
    } else {
        None
    }
}

/// What follows the dims of a tensor: type tag and offset.
pub open spec fn get_placement(b: Seq<u8>, p: int) -> Result<((GgmlType, u64), int), GgufError> {
    match get_u32(b, p) {
        Err(e) => Err(e),
        Ok((tag, q)) => match type_of_tag(tag) {
            None => Err(GgufError::UnsupportedTensorType(tag)),
            Some(dtype) => match get_u64(b, q) {
                Err(e) => Err(e),
                Ok((offset, r)) => Ok(((dtype, offset), r)),
            },
        },
    }
}

/// An entry of the tensor index.
pub open spec fn get_tensor(b: Seq<u8>, p: int) -> Result<(TensorView, int), GgufError> {
    match get_string(b, p) {
        Err(e) => Err(e),
        Ok((name, q)) => match get_u32(b, q) {
            Err(e) => Err(e),
            Ok((n, r)) => match get_u64s(b, r, n as nat) {
                Err(e) => Err(e),
                Ok((dims, s)) => match get_placement(b, s) {
                    Err(e) => Err(e),
                    Ok(((dtype, offset), t)) => Ok((TensorView { name, dims, dtype, offset }, t)),
                },
            },
        },
    }
}

/// `n` entries of the tensor index in a row.
pub open spec fn get_tensors(b: Seq<u8>, p: int, n: nat) -> Result<
    (Seq<TensorView>, int),
    GgufError,
>
    decreases n,
{
    if n == 0 {
        Ok((seq![], p))
    } else {
        match get_tensors(b, p, (n - 1) as nat) {
            Err(e) => Err(e),
            Ok((v, q)) => match get_tensor(b, q) {
                Err(e) => Err(e),
                Ok((x, r)) => Ok((v.push(x), r)),
            },
        }
    }
}

/// The magic bytes, `"GGUF"`.
pub open spec fn magic() -> Seq<u8> {
    seq![0x47u8, 0x47, 0x55, 0x46]
}

/// The next multiple of the alignment.
pub open spec fn aligned(p: int) -> int {
    (p + 31) / 32 * 32
}

/// The magic bytes, the version, and the two counts.
pub open spec fn get_header(b: Seq<u8>) -> Result<((u64, u64), int), GgufError> {
    match get_bytes(b, 0, 4) {
        Err(e) => Err(e),
        Ok(p) => if b.subrange(0, 4) != magic() {
            Err(GgufError::BadMagic)
        } else {
            match get_u32(b, p) {
                Err(e) => Err(e),
                Ok((version, q)) => if version != 3 {
                    Err(GgufError::UnsupportedVersion(version))
                } else {
                    match get_u64(b, q) {
                        Err(e) => Err(e),
                        Ok((tensor_count, r)) => match get_u64(b, r) {
                            Err(e) => Err(e),
                            Ok((entry_count, s)) => Ok(((tensor_count, entry_count), s)),
                        },
                    }
                },
            }
        },
    }
}

/// What follows the header: entries, tensor index, and the data section.
pub open spec fn get_body(b: Seq<u8>, p: int, tensor_count: nat, entry_count: nat) -> Result<
    Content,
    GgufError,
> {
    match get_entries(b, p, entry_count) {
        Err(e) => Err(e),
        Ok((entries, q)) => match get_tensors(b, q, tensor_count) {
            Err(e) => Err(e),
            Ok((tensors, r)) => if aligned(r) > b.len() {
                Err(GgufError::DataStartPastEnd)
            } else {
                Ok(Content { entries, tensors, data_start: aligned(r) })
            },
        },
    }
}

/// A whole file.
pub open spec fn get_file(b: Seq<u8>) -> Result<Content, GgufError> {
    match get_header(b) {
        Err(e) => Err(e),
        Ok(((tensor_count, entry_count), p)) => get_body(
            b,
            p,
            tensor_count as nat,
            entry_count as nat,
        ),
    }
}

/// The value of a metadata key; of several entries with the key, the last one
/// counts.
pub open spec fn find_value(entries: Seq<(Seq<char>, MetaView)>, key: Seq<char>) -> Option<MetaView>
    decreases entries.len(),
{
    if entries.len() == 0 {
        None
    } else if entries.last().0 == key {
        Some(entries.last().1)
    } else {
        find_value(entries.drop_last(), key)
    }
}

/// The place of a tensor in the index; of several with the name, the last one
/// counts.
pub open spec fn find_tensor(tensors: Seq<TensorView>, name: Seq<char>) -> Option<int>
    decreases tensors.len(),
{
    if tensors.len() == 0 {
        None
    } else if tensors.last().name == name {
        Some(tensors.len() - 1)
    } else {
        find_tensor(tensors.drop_last(), name)
    }
}

/// The product of the dims, if no partial product leaves the 64-bit range.
pub open spec fn dims_product(dims: Seq<u64>) -> Option<u64>
    decreases dims.len(),
{
    if dims.len() == 0 {
        Some(1)
    } else {
        match dims_product(dims.drop_last()) {
            None => None,
            Some(x) => if x * dims.last() > u64::MAX {
                None
            } else {
                Some((x * dims.last()) as u64)
            },
        }
    }
}

/// The bytes of a tensor, of which the file must hold all.
pub open spec fn tensor_range(c: Content, file_len: int, t: TensorView) -> Result<
    (int, int),
    GgufError,
> {
    match dims_product(t.dims) {
        None => Err(GgufError::TensorRangeOverflow),
        Some(elems) => if elems as int % t.dtype.elems() != 0 {
            Err(GgufError::PartialBlock)
        } else {
            let start = c.data_start + t.offset;
            let end = start + elems as int / t.dtype.elems() * t.dtype.bytes();
            if end > u64::MAX {
                Err(GgufError::TensorRangeOverflow)
            } else if end > file_len {
                Err(GgufError::TensorPastEnd)
            } else {
                Ok((start, end))
            }
        },
    }
}

// An item that fails makes every longer row that it stands in fail alike.

pub(crate) proof fn lemma_strings_fail(b: Seq<u8>, p: int, i: nat, n: nat)
    requires
        i <= n,
        get_strings(b, p, i) is Err,
    ensures
        get_strings(b, p, n) == get_strings(b, p, i),
    decreases n,
{
    if i < n {
        lemma_strings_fail(b, p, i, (n - 1) as nat);
    }
}

pub(crate) proof fn lemma_u32s_fail(b: Seq<u8>, p: int, i: nat, n: nat)
    requires
        i <= n,
        get_u32s(b, p, i) is Err,
    ensures
        get_u32s(b, p, n) == get_u32s(b, p, i),
    decreases n,
{
    if i < n {
        lemma_u32s_fail(b, p, i, (n - 1) as nat);
    }
}

pub(crate) proof fn lemma_u64s_fail(b: Seq<u8>, p: int, i: nat, n: nat)
    requires
        i <= n,
        get_u64s(b, p, i) is Err,
    ensures
        get_u64s(b, p, n) == get_u64s(b, p, i),
    decreases n,
{
    if i < n {
        lemma_u64s_fail(b, p, i, (n - 1) as nat);
    }
}

pub(crate) proof fn lemma_entries_fail(b: Seq<u8>, p: int, i: nat, n: nat)
    requires
        i <= n,
        get_entries(b, p, i) is Err,
    ensures
        get_entries(b, p, n) == get_entries(b, p, i),
    decreases n,
{
    if i < n {
        lemma_entries_fail(b, p, i, (n - 1) as nat);
    }
}

pub(crate) proof fn lemma_tensors_fail(b: Seq<u8>, p: int, i: nat, n: nat)
    requires
        i <= n,
        get_tensors(b, p, i) is Err,
    ensures
        get_tensors(b, p, n) == get_tensors(b, p, i),
    decreases n,
{
    if i < n {
        lemma_tensors_fail(b, p, i, (n - 1) as nat);
    }
}

} // verus!
