//! The byte layout in the other direction: how a writer lays a file out, and
//! the proof that reading gives back what was written.

use vstd::prelude::*;
use vstd::utf8::{encode_utf8, encode_utf8_decode_utf8, encode_utf8_valid_utf8};

use crate::bits::as_signed;
use crate::gguf::dtype::GgmlType;
use crate::gguf::format::{
    aligned, dims_product, find_tensor, get_array, get_body, get_entries, get_entry, get_file,
    get_header, get_placement, get_string, get_strings, get_tensor, get_tensors, get_u32, get_u32s,
    get_u64, get_u64s, get_value, magic, type_of_tag, Content, GgufError, MetaView, TensorView,
    T_ARRAY, T_BOOL, T_FLOAT32, T_INT32, T_STRING, T_UINT32,
};
use crate::gguf::reader::GgufFile;

verus! {

pub open spec fn put_u32(x: u32) -> Seq<u8> {
    seq![
        (x % 0x100) as u8,
        (x / 0x100 % 0x100) as u8,
        (x / 0x1_0000 % 0x100) as u8,
        (x / 0x100_0000) as u8,
    ]
}

pub open spec fn put_u64(x: u64) -> Seq<u8> {
    put_u32((x % 0x1_0000_0000) as u32) + put_u32((x / 0x1_0000_0000) as u32)
}

/// The two's-complement pattern of an `i32`.
pub open spec fn unsigned(i: i32) -> u32 {
    if i < 0 {
        (i + 0x1_0000_0000) as u32
    } else {
        i as u32
    }
}

pub open spec fn put_string(s: Seq<char>) -> Seq<u8> {
    put_u64(encode_utf8(s).len() as u64) + encode_utf8(s)
}

pub open spec fn put_strings(v: Seq<Seq<char>>) -> Seq<u8>
    decreases v.len(),
{
    if v.len() == 0 {
        seq![]
    } else {
        put_strings(v.drop_last()) + put_string(v.last())
    }
}

pub open spec fn put_u32s(v: Seq<u32>) -> Seq<u8>
    decreases v.len(),
{
    if v.len() == 0 {
        seq![]
    } else {
        put_u32s(v.drop_last()) + put_u32(v.last())
    }
}

pub open spec fn put_u64s(v: Seq<u64>) -> Seq<u8>
    decreases v.len(),
{
    if v.len() == 0 {
        seq![]
    } else {
        put_u64s(v.drop_last()) + put_u64(v.last())
    }
}

/// The value type tag of a metadata value.
pub open spec fn value_tag(v: MetaView) -> u32 {
    match v {
        MetaView::U32(_) => T_UINT32,
        MetaView::F32(_) => T_FLOAT32,
        MetaView::Bool(_) => T_BOOL,
        MetaView::Str(_) => T_STRING,
        MetaView::ArrStr(_) => T_ARRAY,
        MetaView::ArrI32(_) => T_ARRAY,
        MetaView::ArrF32(_) => T_ARRAY,
    }
}

/// A metadata value, without its tag.
pub open spec fn put_value(v: MetaView) -> Seq<u8> {
    match v {
        MetaView::U32(x) => put_u32(x),
        MetaView::F32(x) => put_u32(x),
        MetaView::Bool(x) => seq![if x { 1u8 } else { 0u8 }],
        MetaView::Str(x) => put_string(x),
        MetaView::ArrStr(x) => put_u32(T_STRING) + put_u64(x.len() as u64) + put_strings(x),
        MetaView::ArrI32(x) => put_u32(T_INT32) + put_u64(x.len() as u64) + put_u32s(
            x.map_values(|i: i32| unsigned(i)),
        ),
        MetaView::ArrF32(x) => put_u32(T_FLOAT32) + put_u64(x.len() as u64) + put_u32s(x),
    }
}

pub open spec fn put_entry(e: (Seq<char>, MetaView)) -> Seq<u8> {
    put_string(e.0) + put_u32(value_tag(e.1)) + put_value(e.1)
}

pub open spec fn put_entries(v: Seq<(Seq<char>, MetaView)>) -> Seq<u8>
    decreases v.len(),
{
    if v.len() == 0 {
        seq![]
    } else {
        put_entries(v.drop_last()) + put_entry(v.last())
    }
}

pub open spec fn put_tensor(t: TensorView) -> Seq<u8> {
    put_string(t.name) + put_u32(t.dims.len() as u32) + put_u64s(t.dims) + (put_u32(t.dtype.tag())
        + put_u64(t.offset))
}

pub open spec fn put_tensors(v: Seq<TensorView>) -> Seq<u8>
    decreases v.len(),
{
    if v.len() == 0 {
        seq![]
    } else {
        put_tensors(v.drop_last()) + put_tensor(v.last())
    }
}

/// The magic bytes, the version, and the tensor and entry counts.
#[verifier::opaque]
pub open spec fn put_header(tensor_count: u64, entry_count: u64) -> Seq<u8> {
    magic() + put_u32(3) + put_u64(tensor_count) + put_u64(entry_count)
}

/// Everything before the data section, without the padding.
pub open spec fn put_index(
    entries: Seq<(Seq<char>, MetaView)>,
    tensors: Seq<TensorView>,
) -> Seq<u8> {
    put_header(tensors.len() as u64, entries.len() as u64) + put_entries(entries) + put_tensors(
        tensors,
    )
}

/// A whole file: the index, zeros up to the alignment, and the tensor data.
pub open spec fn put_file(
    entries: Seq<(Seq<char>, MetaView)>,
    tensors: Seq<TensorView>,
    data: Seq<u8>,
) -> Seq<u8> {
    let index = put_index(entries, tensors);
    index + Seq::new((aligned(index.len() as int) - index.len()) as nat, |i: int| 0u8) + data
}

/// Whether the bytes `w` stand at position `p` of a file that can be addressed.
#[verifier::opaque]
spec fn stands(b: Seq<u8>, p: int, w: Seq<u8>) -> bool {
    &&& 0 <= p
    &&& p + w.len() <= b.len() <= u64::MAX
    &&& b.subrange(p, p + w.len()) == w
}

/// The two parts of what stands at a position stand one behind the other.
proof fn lemma_split(b: Seq<u8>, p: int, w1: Seq<u8>, w2: Seq<u8>)
    requires
        stands(b, p, w1 + w2),
    ensures
        stands(b, p, w1),
        stands(b, p + w1.len(), w2),
{
    reveal(stands);
    let w = w1 + w2;
    assert(b.subrange(p, p + w1.len()) =~= w1) by {
        assert forall|i: int| 0 <= i < w1.len() implies b.subrange(p, p + w1.len())[i] == w1[i] by {
            assert(b.subrange(p, p + w.len())[i] == w[i]);
        }
    }
    assert(b.subrange(p + w1.len(), p + w.len()) =~= w2) by {
        assert forall|i: int| 0 <= i < w2.len() implies b.subrange(
            p + w1.len(),
            p + w.len(),
        )[i] == w2[i] by {
            assert(b.subrange(p, p + w.len())[i + w1.len()] == w[i + w1.len()]);
        }
    }
}

proof fn lemma_u32(b: Seq<u8>, p: int, x: u32)
    requires
        stands(b, p, put_u32(x)),
    ensures
        get_u32(b, p) == Ok::<(u32, int), GgufError>((x, p + 4)),
{
    reveal(stands);
    let w = put_u32(x);
    let c = b.subrange(p, p + w.len());
    assert(c[0] == b[p] && c[1] == b[p + 1] && c[2] == b[p + 2] && c[3] == b[p + 3]);
}

proof fn lemma_u64(b: Seq<u8>, p: int, x: u64)
    requires
        stands(b, p, put_u64(x)),
    ensures
        get_u64(b, p) == Ok::<(u64, int), GgufError>((x, p + 8)),
{
    let (lo, hi) = ((x % 0x1_0000_0000) as u32, (x / 0x1_0000_0000) as u32);
    lemma_split(b, p, put_u32(lo), put_u32(hi));
    lemma_u32(b, p, lo);
    lemma_u32(b, p + 4, hi);
}

proof fn lemma_string(b: Seq<u8>, p: int, s: Seq<char>)
    requires
        stands(b, p, put_string(s)),
    ensures
        get_string(b, p) == Ok::<(Seq<char>, int), GgufError>((s, p + put_string(s).len())),
{
    reveal(stands);
    let e = encode_utf8(s);
    lemma_split(b, p, put_u64(e.len() as u64), e);
    lemma_u64(b, p, e.len() as u64);
    encode_utf8_valid_utf8(s);
    encode_utf8_decode_utf8(s);
}

proof fn lemma_strings(b: Seq<u8>, p: int, v: Seq<Seq<char>>)
    requires
        stands(b, p, put_strings(v)),
    ensures
        get_strings(b, p, v.len()) == Ok::<(Seq<Seq<char>>, int), GgufError>(
            (v, p + put_strings(v).len()),
        ),
    decreases v.len(),
{
    if v.len() > 0 {
        lemma_split(b, p, put_strings(v.drop_last()), put_string(v.last()));
        lemma_strings(b, p, v.drop_last());
        lemma_string(b, p + put_strings(v.drop_last()).len(), v.last());
        assert(v.drop_last().push(v.last()) =~= v);
    } else {
        assert(v =~= seq![]);
    }
}

proof fn lemma_u32s(b: Seq<u8>, p: int, v: Seq<u32>)
    requires
        stands(b, p, put_u32s(v)),
    ensures
        get_u32s(b, p, v.len()) == Ok::<(Seq<u32>, int), GgufError>((v, p + put_u32s(v).len())),
    decreases v.len(),
{
    if v.len() > 0 {
        lemma_split(b, p, put_u32s(v.drop_last()), put_u32(v.last()));
        lemma_u32s(b, p, v.drop_last());
        lemma_u32(b, p + put_u32s(v.drop_last()).len(), v.last());
        assert(v.drop_last().push(v.last()) =~= v);
    } else {
        assert(v =~= seq![]);
    }
}

proof fn lemma_u64s(b: Seq<u8>, p: int, v: Seq<u64>)
    requires
        stands(b, p, put_u64s(v)),
    ensures
        get_u64s(b, p, v.len()) == Ok::<(Seq<u64>, int), GgufError>((v, p + put_u64s(v).len())),
    decreases v.len(),
{
    if v.len() > 0 {
        lemma_split(b, p, put_u64s(v.drop_last()), put_u64(v.last()));
        lemma_u64s(b, p, v.drop_last());
        lemma_u64(b, p + put_u64s(v.drop_last()).len(), v.last());
        assert(v.drop_last().push(v.last()) =~= v);
    } else {
        assert(v =~= seq![]);
    }
}

/// Whether the counts in a metadata value fit the 64 bits of a file.
pub open spec fn countable(v: MetaView) -> bool {
    match v {
        MetaView::ArrStr(x) => x.len() <= u64::MAX,
        MetaView::ArrI32(x) => x.len() <= u64::MAX,
        MetaView::ArrF32(x) => x.len() <= u64::MAX,
        _ => true,
    }
}

/// Any value but an array.
proof fn lemma_single(b: Seq<u8>, p: int, v: MetaView)
    requires
        stands(b, p, put_value(v)),
        !(v is ArrStr || v is ArrI32 || v is ArrF32),
    ensures
        get_value(b, p, value_tag(v)) == Ok::<(MetaView, int), GgufError>(
            (v, p + put_value(v).len()),
        ),
{
    match v {
        MetaView::U32(x) => lemma_u32(b, p, x),
        MetaView::F32(x) => lemma_u32(b, p, x),
        MetaView::Bool(x) => {
            reveal(stands);
            assert(b.subrange(p, p + put_value(v).len())[0] == b[p]);
        },
        MetaView::Str(x) => lemma_string(b, p, x),
        _ => {},
    }
}

proof fn lemma_str_array(b: Seq<u8>, p: int, x: Seq<Seq<char>>)
    requires
        stands(b, p, put_value(MetaView::ArrStr(x))),
        x.len() <= u64::MAX,
    ensures
        get_value(b, p, T_ARRAY) == Ok::<(MetaView, int), GgufError>(
            (MetaView::ArrStr(x), p + put_value(MetaView::ArrStr(x)).len()),
        ),
{
    lemma_array_head(b, p, T_STRING, x.len() as u64, put_strings(x));
    lemma_strings(b, p + 12, x);
}

proof fn lemma_i32_array(b: Seq<u8>, p: int, x: Seq<i32>)
    requires
        stands(b, p, put_value(MetaView::ArrI32(x))),
        x.len() <= u64::MAX,
    ensures
        get_value(b, p, T_ARRAY) == Ok::<(MetaView, int), GgufError>(
            (MetaView::ArrI32(x), p + put_value(MetaView::ArrI32(x)).len()),
        ),
{
    let us = x.map_values(|i: i32| unsigned(i));
    lemma_array_head(b, p, T_INT32, x.len() as u64, put_u32s(us));
    lemma_u32s(b, p + 12, us);
    assert(us.map_values(|u: u32| as_signed(u)) =~= x);
}

proof fn lemma_f32_array(b: Seq<u8>, p: int, x: Seq<u32>)
    requires
        stands(b, p, put_value(MetaView::ArrF32(x))),
        x.len() <= u64::MAX,
    ensures
        get_value(b, p, T_ARRAY) == Ok::<(MetaView, int), GgufError>(
            (MetaView::ArrF32(x), p + put_value(MetaView::ArrF32(x)).len()),
        ),
{
    lemma_array_head(b, p, T_FLOAT32, x.len() as u64, put_u32s(x));
    lemma_u32s(b, p + 12, x);
}

proof fn lemma_value(b: Seq<u8>, p: int, v: MetaView)
    requires
        stands(b, p, put_value(v)),
        countable(v),
    ensures
        get_value(b, p, value_tag(v)) == Ok::<(MetaView, int), GgufError>(
            (v, p + put_value(v).len()),
        ),
{
    match v {
        MetaView::ArrStr(x) => lemma_str_array(b, p, x),
        MetaView::ArrI32(x) => lemma_i32_array(b, p, x),
        MetaView::ArrF32(x) => lemma_f32_array(b, p, x),
        _ => lemma_single(b, p, v),
    }
}

proof fn lemma_array_head(b: Seq<u8>, p: int, inner: u32, n: u64, rest: Seq<u8>)
    requires
        stands(b, p, put_u32(inner) + put_u64(n) + rest),
    ensures
        get_value(b, p, T_ARRAY) == get_array(b, p + 12, inner, n as nat),
        stands(b, p + 12, rest),
{
    lemma_split(b, p, put_u32(inner) + put_u64(n), rest);
    lemma_split(b, p, put_u32(inner), put_u64(n));
    lemma_u32(b, p, inner);
    lemma_u64(b, p + 4, n);
}

proof fn lemma_entry(b: Seq<u8>, p: int, e: (Seq<char>, MetaView))
    requires
        stands(b, p, put_entry(e)),
        countable(e.1),
    ensures
        get_entry(b, p) == Ok::<((Seq<char>, MetaView), int), GgufError>(
            (e, p + put_entry(e).len()),
        ),
{
    let (key, tag) = (put_string(e.0), put_u32(value_tag(e.1)));
    lemma_split(b, p, key + tag, put_value(e.1));
    lemma_split(b, p, key, tag);
    lemma_string(b, p, e.0);
    lemma_u32(b, p + key.len(), value_tag(e.1));
    lemma_value(b, p + key.len() + 4, e.1);
}

proof fn lemma_entries(b: Seq<u8>, p: int, v: Seq<(Seq<char>, MetaView)>)
    requires
        stands(b, p, put_entries(v)),
        forall|i: int| 0 <= i < v.len() ==> countable(#[trigger] v[i].1),
    ensures
        get_entries(b, p, v.len()) == Ok::<(Seq<(Seq<char>, MetaView)>, int), GgufError>(
            (v, p + put_entries(v).len()),
        ),
    decreases v.len(),
{
    if v.len() > 0 {
        let init = v.drop_last();
        lemma_split(b, p, put_entries(init), put_entry(v.last()));
        assert forall|i: int| 0 <= i < init.len() implies countable(#[trigger] init[i].1) by {
            assert(init[i] == v[i]);
        }
        lemma_entries(b, p, init);
        assert(countable(v[v.len() - 1].1));
        lemma_entry(b, p + put_entries(init).len(), v.last());
        assert(init.push(v.last()) =~= v);
    } else {
        assert(v =~= seq![]);
    }
}

proof fn lemma_tensor(b: Seq<u8>, p: int, t: TensorView)
    requires
        stands(b, p, put_tensor(t)),
        t.dims.len() <= u32::MAX,
    ensures
        get_tensor(b, p) == Ok::<(TensorView, int), GgufError>((t, p + put_tensor(t).len())),
{
    let (name, n, dims) = (put_string(t.name), put_u32(t.dims.len() as u32), put_u64s(t.dims));
    let (tag, offset) = (put_u32(t.dtype.tag()), put_u64(t.offset));
    lemma_split(b, p, name + n + dims, tag + offset);
    lemma_split(b, p, name + n, dims);
    lemma_split(b, p, name, n);
    lemma_string(b, p, t.name);
    let q = p + name.len();
    lemma_u32(b, q, t.dims.len() as u32);
    lemma_u64s(b, q + 4, t.dims);
    let r = q + 4 + dims.len();
    lemma_split(b, r, tag, offset);
    lemma_u32(b, r, t.dtype.tag());
    lemma_u64(b, r + 4, t.offset);
    assert(type_of_tag(t.dtype.tag()) == Some(t.dtype)) by {
        assert(forall|x: GgmlType, y: GgmlType| #[trigger] x.tag() == #[trigger] y.tag() ==> x == y);
    }
    assert(get_placement(b, r) == Ok::<((GgmlType, u64), int), GgufError>(
        ((t.dtype, t.offset), r + 12),
    ));
}

proof fn lemma_tensors(b: Seq<u8>, p: int, v: Seq<TensorView>)
    requires
        stands(b, p, put_tensors(v)),
        forall|i: int| 0 <= i < v.len() ==> (#[trigger] v[i]).dims.len() <= u32::MAX,
    ensures
        get_tensors(b, p, v.len()) == Ok::<(Seq<TensorView>, int), GgufError>(
            (v, p + put_tensors(v).len()),
        ),
    decreases v.len(),
{
    if v.len() > 0 {
        let init = v.drop_last();
        lemma_split(b, p, put_tensors(init), put_tensor(v.last()));
        lemma_tensors(b, p, init);
        lemma_tensor(b, p + put_tensors(init).len(), v.last());
        assert(init.push(v.last()) =~= v);
    } else {
        assert(v =~= seq![]);
    }
}

proof fn lemma_header(b: Seq<u8>, nt: u64, ne: u64)
    requires
        stands(b, 0, put_header(nt, ne)),
    ensures
        put_header(nt, ne).len() == 24,
        get_header(b) == Ok::<((u64, u64), int), GgufError>(((nt, ne), 24)),
{
    reveal(put_header);
    reveal(stands);
    let head = magic() + put_u32(3);
    lemma_split(b, 0, head + put_u64(nt), put_u64(ne));
    lemma_split(b, 0, head, put_u64(nt));
    lemma_split(b, 0, magic(), put_u32(3));
    lemma_u32(b, 4, 3);
    lemma_u64(b, 8, nt);
    lemma_u64(b, 16, ne);
}

proof fn lemma_body(
    b: Seq<u8>,
    entries: Seq<(Seq<char>, MetaView)>,
    tensors: Seq<TensorView>,
    end: int,
)
    requires
        stands(b, 24, put_entries(entries)),
        stands(b, 24int + put_entries(entries).len(), put_tensors(tensors)),
        end == 24 + put_entries(entries).len() + put_tensors(tensors).len(),
        aligned(end) <= b.len(),
        forall|i: int| 0 <= i < entries.len() ==> countable(#[trigger] entries[i].1),
        forall|i: int| 0 <= i < tensors.len() ==> (#[trigger] tensors[i]).dims.len() <= u32::MAX,
    ensures
        get_body(b, 24, tensors.len(), entries.len()) == Ok::<Content, GgufError>(
            Content { entries, tensors, data_start: aligned(end) },
        ),
{
    lemma_entries(b, 24, entries);
    lemma_tensors(b, 24int + put_entries(entries).len(), tensors);
}

/// Where the parts of a file stand.
proof fn lemma_parts(
    b: Seq<u8>,
    head: Seq<u8>,
    es: Seq<u8>,
    ts: Seq<u8>,
    padding: Seq<u8>,
    data: Seq<u8>,
)
    requires
        b == head + es + ts + padding + data,
        b.len() <= u64::MAX,
    ensures
        stands(b, 0, head),
        stands(b, head.len() as int, es),
        stands(b, head.len() as int + es.len(), ts),
        b.skip((head + es + ts).len() as int + padding.len()) == data,
{
    reveal(stands);
    assert(b.subrange(0, b.len() as int) =~= b);
    lemma_split(b, 0, head + es + ts + padding, data);
    lemma_split(b, 0, head + es + ts, padding);
    lemma_split(b, 0, head + es, ts);
    lemma_split(b, 0, head, es);
    assert(b.skip((head + es + ts).len() as int + padding.len()) =~= data);
}

/// Reading gives back what was written: a file laid out from metadata entries,
/// a tensor index and tensor data reads as those entries and that index, with
/// the data at the start of the data section. The counts must fit the fields
/// that hold them, and the file must be addressable.
pub proof fn read_of_write(
    entries: Seq<(Seq<char>, MetaView)>,
    tensors: Seq<TensorView>,
    data: Seq<u8>,
)
    requires
        put_file(entries, tensors, data).len() <= u64::MAX,
        entries.len() <= u64::MAX,
        tensors.len() <= u64::MAX,
        forall|i: int| 0 <= i < entries.len() ==> countable(#[trigger] entries[i].1),
        forall|i: int| 0 <= i < tensors.len() ==> (#[trigger] tensors[i]).dims.len() <= u32::MAX,
    ensures
        get_file(put_file(entries, tensors, data)) == Ok::<Content, GgufError>(
            Content {
                entries,
                tensors,
                data_start: aligned(put_index(entries, tensors).len() as int),
            },
        ),
        put_file(entries, tensors, data).skip(
            aligned(put_index(entries, tensors).len() as int),
        ) == data,
{
    let index = put_index(entries, tensors);
    let padding = Seq::new((aligned(index.len() as int) - index.len()) as nat, |i: int| 0u8);
    let (nt, ne) = (tensors.len() as u64, entries.len() as u64);
    let b = put_file(entries, tensors, data);
    lemma_parts(
        b,
        put_header(nt, ne),
        put_entries(entries),
        put_tensors(tensors),
        padding,
        data,
    );
    lemma_header(b, nt, ne);
    assert(padding.len() == aligned(index.len() as int) - index.len());
    lemma_body(b, entries, tensors, index.len() as int);
}

/// A tensor that was written is read back: the bytes of the last tensor with
/// its name are the part of the data that its offset and dims name, provided
/// that they fill whole blocks and lie inside the data.
pub proof fn tensor_of_write(
    f: GgufFile,
    entries: Seq<(Seq<char>, MetaView)>,
    tensors: Seq<TensorView>,
    data: Seq<u8>,
    i: int,
)
    requires
        f.bytes() == put_file(entries, tensors, data),
        put_file(entries, tensors, data).len() <= u64::MAX,
        entries.len() <= u64::MAX,
        tensors.len() <= u64::MAX,
        forall|j: int| 0 <= j < entries.len() ==> countable(#[trigger] entries[j].1),
        forall|j: int| 0 <= j < tensors.len() ==> (#[trigger] tensors[j]).dims.len() <= u32::MAX,
        0 <= i < tensors.len(),
        forall|j: int| i < j < tensors.len() ==> (#[trigger] tensors[j]).name != tensors[i].name,
        dims_product(tensors[i].dims) is Some,
        dims_product(tensors[i].dims)->0 as int % tensors[i].dtype.elems() == 0,
        tensors[i].offset + stored_len(tensors[i]) <= data.len(),
    ensures
        f.raw(tensors[i].name) == Ok::<(Seq<u8>, GgmlType), GgufError>(
            (
                data.subrange(
                    tensors[i].offset as int,
                    tensors[i].offset + stored_len(tensors[i]),
                ),
                tensors[i].dtype,
            ),
        ),
{
    read_of_write(entries, tensors, data);
    lemma_find_last(tensors, i);
    let b = f.bytes();
    let start = aligned(put_index(entries, tensors).len() as int);
    let (p, n) = (tensors[i].offset as int, stored_len(tensors[i]));
    assert(n >= 0) by (nonlinear_arith)
        requires
            n == dims_product(tensors[i].dims)->0 as int / tensors[i].dtype.elems()
                * tensors[i].dtype.bytes(),
            tensors[i].dtype.elems() > 0,
            tensors[i].dtype.bytes() > 0,
    ;
    assert(b.skip(start).len() == data.len());
    assert(b.subrange(start + p, start + p + n) =~= b.skip(start).subrange(p, p + n));
}

/// The number of bytes that the elements of a tensor fill.
pub open spec fn stored_len(t: TensorView) -> int {
    dims_product(t.dims)->0 as int / t.dtype.elems() * t.dtype.bytes()
}

proof fn lemma_find_last(tensors: Seq<TensorView>, i: int)
    requires
        0 <= i < tensors.len(),
        forall|j: int| i < j < tensors.len() ==> (#[trigger] tensors[j]).name != tensors[i].name,
    ensures
        find_tensor(tensors, tensors[i].name) == Some(i),
    decreases tensors.len(),
{
    if i < tensors.len() - 1 {
        lemma_find_last(tensors.drop_last(), i);
    }
}

} // verus!
