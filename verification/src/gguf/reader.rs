//! GGUF reader: a bounds-checked cursor over the bytes of a file, the parsed
//! index, and views into the data section.

use vstd::hash_map::StringHashMap;
use vstd::prelude::*;
use vstd::slice::{slice_subrange, slice_to_vec};

use crate::bits::{as_signed, le_u32, read_u32, read_u64, to_signed};
use crate::gguf::dtype::GgmlType;
use crate::gguf::format::{
    agrees, aligned, dims_product, find_tensor, find_value, get_array, get_body, get_bytes,
    get_entries, get_entry, get_file, get_header, get_i32, get_placement, get_string, get_strings, get_tensor,
    get_tensors, get_u32, get_u32s, get_u64, get_u64s, get_u8, get_value, lemma_entries_fail,
    lemma_strings_fail, lemma_tensors_fail, lemma_u32s_fail, lemma_u64s_fail, magic, tensor_range,
    texts, type_of_tag, viewed, Content, GgufError, MetaValue, MetaView, TensorView, T_ARRAY,
    T_BOOL, T_FLOAT32, T_INT32, T_STRING, T_UINT32, ALIGNMENT,
};
use crate::gguf::vector::Vector;
use crate::text::text_exact;

verus! {

/// Cursor over the bytes of a file that bounds-checks every read.
struct Cursor<'a> {
    buf: &'a [u8],
    pos: usize,
}

impl<'a> Cursor<'a> {
    spec fn wf(self) -> bool {
        self.pos <= self.buf@.len()
    }

    /// What stays true of a cursor from one read to the next.
    spec fn follows(self, old: Self) -> bool {
        self.wf() && self.buf == old.buf
    }

    fn new(buf: &'a [u8]) -> (c: Self)
        ensures
            c.wf(),
            c.buf == buf,
            c.pos == 0,
    {
        Cursor { buf, pos: 0 }
    }

    /// Takes the next `n` bytes; if there are not as many, the position stays.
    fn take(&mut self, n: u64) -> (r: Result<&'a [u8], GgufError>)
        requires
            old(self).wf(),
        ensures
            final(self).follows(*old(self)),
            match r {
                Ok(s) => {
                    &&& get_bytes(old(self).buf@, old(self).pos as int, n as int) == Ok::<
                        int,
                        GgufError,
                    >(final(self).pos as int)
                    &&& s@ == old(self).buf@.subrange(old(self).pos as int, final(self).pos as int)
                },
                Err(e) => {
                    &&& get_bytes(old(self).buf@, old(self).pos as int, n as int) == Err::<
                        int,
                        GgufError,
                    >(e)
                    &&& final(self).pos == old(self).pos
                },
            },
    {
        let len: usize = self.buf.len();
        let start: usize = self.pos;
        if n > u64::MAX - start as u64 {
            return Err(GgufError::OffsetOverflow);
        }
        if n > (len - start) as u64 {
            return Err(GgufError::UnexpectedEof);
        }
        let end: usize = start + n as usize;
        self.pos = end;
        Ok(slice_subrange(self.buf, start, end))
    }

    fn u8(&mut self) -> (r: Result<u8, GgufError>)
        requires
            old(self).wf(),
        ensures
            final(self).follows(*old(self)),
            agrees(r, final(self).pos as int, get_u8(old(self).buf@, old(self).pos as int)),
            r is Err ==> final(self).pos == old(self).pos,
    {
        let b: &[u8] = self.take(1)?;
        Ok(b[0])
    }

    fn u32(&mut self) -> (r: Result<u32, GgufError>)
        requires
            old(self).wf(),
        ensures
            final(self).follows(*old(self)),
            agrees(r, final(self).pos as int, get_u32(old(self).buf@, old(self).pos as int)),
            r is Err ==> final(self).pos == old(self).pos,
    {
        let b: &[u8] = self.take(4)?;
        Ok(read_u32(b, 0))
    }

    fn i32(&mut self) -> (r: Result<i32, GgufError>)
        requires
            old(self).wf(),
        ensures
            final(self).follows(*old(self)),
            agrees(r, final(self).pos as int, get_i32(old(self).buf@, old(self).pos as int)),
            r is Err ==> final(self).pos == old(self).pos,
    {
        let u: u32 = self.u32()?;
        Ok(to_signed(u))
    }

    fn u64(&mut self) -> (r: Result<u64, GgufError>)
        requires
            old(self).wf(),
        ensures
            final(self).follows(*old(self)),
            agrees(r, final(self).pos as int, get_u64(old(self).buf@, old(self).pos as int)),
            r is Err ==> final(self).pos == old(self).pos,
    {
        let b: &[u8] = self.take(8)?;
        Ok(read_u64(b, 0))
    }

    fn string(&mut self) -> (r: Result<String, GgufError>)
        requires
            old(self).wf(),
        ensures
            final(self).follows(*old(self)),
            agrees(viewed(r), final(self).pos as int, get_string(old(self).buf@, old(self).pos as int)),
    {
        let n: u64 = self.u64()?;
        let b: &[u8] = self.take(n)?;
        match text_exact(slice_to_vec(b)) {
            Some(s) => Ok(s),
            None => Err(GgufError::InvalidUtf8),
        }
    }

    fn strings(&mut self, n: u64) -> (r: Result<Vec<String>, GgufError>)
        requires
            old(self).wf(),
        ensures
            final(self).follows(*old(self)),
            agrees(
                match r {
                    Ok(v) => Ok(texts(v@)),
                    Err(e) => Err(e),
                },
                final(self).pos as int,
                get_strings(old(self).buf@, old(self).pos as int, n as nat),
            ),
    {
        let ghost (b, p) = (self.buf@, self.pos as int);
        let mut v: Vec<String> = Vec::new();
        let mut i: u64 = 0;
        assert(texts(v@) =~= seq![]);
        while i < n
            invariant
                0 <= i <= n,
                self.follows(*old(self)),
                b == self.buf@,
                p == old(self).pos,
                get_strings(b, p, i as nat) == Ok::<(Seq<Seq<char>>, int), GgufError>(
                    (texts(v@), self.pos as int),
                ),
            decreases n - i,
        {
            let ghost before = v@;
            match self.string() {
                Ok(s) => {
                    v.push(s);
                    assert(texts(v@) =~= texts(before).push(s@));
                },
                Err(e) => {
                    proof {
                        lemma_strings_fail(b, p, (i + 1) as nat, n as nat);
                    }
                    return Err(e);
                },
            }
            i += 1;
        }
        Ok(v)
    }

    fn u32s(&mut self, n: u64) -> (r: Result<Vec<u32>, GgufError>)
        requires
            old(self).wf(),
        ensures
            final(self).follows(*old(self)),
            agrees(viewed(r), final(self).pos as int, get_u32s(old(self).buf@, old(self).pos as int, n as nat)),
    {
        let ghost (b, p) = (self.buf@, self.pos as int);
        let mut v: Vec<u32> = Vec::new();
        let mut i: u64 = 0;
        while i < n
            invariant
                0 <= i <= n,
                self.follows(*old(self)),
                b == self.buf@,
                p == old(self).pos,
                get_u32s(b, p, i as nat) == Ok::<(Seq<u32>, int), GgufError>(
                    (v@, self.pos as int),
                ),
            decreases n - i,
        {
            match self.u32() {
                Ok(x) => v.push(x),
                Err(e) => {
                    proof {
                        lemma_u32s_fail(b, p, (i + 1) as nat, n as nat);
                    }
                    return Err(e);
                },
            }
            i += 1;
        }
        Ok(v)
    }

    fn i32s(&mut self, n: u64) -> (r: Result<Vec<i32>, GgufError>)
        requires
            old(self).wf(),
        ensures
            final(self).follows(*old(self)),
            agrees(
                viewed(r),
                final(self).pos as int,
                match get_u32s(old(self).buf@, old(self).pos as int, n as nat) {
                    Ok((v, q)) => Ok((v.map_values(|u: u32| as_signed(u)), q)),
                    Err(e) => Err(e),
                },
            ),
    {
        let ghost (b, p) = (self.buf@, self.pos as int);
        let ghost mut us: Seq<u32> = seq![];
        let mut v: Vec<i32> = Vec::new();
        let mut i: u64 = 0;
        while i < n
            invariant
                0 <= i <= n,
                self.follows(*old(self)),
                b == self.buf@,
                p == old(self).pos,
                get_u32s(b, p, i as nat) == Ok::<(Seq<u32>, int), GgufError>(
                    (us, self.pos as int),
                ),
                v@ == us.map_values(|u: u32| as_signed(u)),
            decreases n - i,
        {
            let ghost q = self.pos as int;
            match self.i32() {
                Ok(x) => {
                    proof {
                        us = us.push(le_u32(b, q));
                    }
                    v.push(x);
                },
                Err(e) => {
                    proof {
                        lemma_u32s_fail(b, p, (i + 1) as nat, n as nat);
                    }
                    return Err(e);
                },
            }
            i += 1;
        }
        Ok(v)
    }

    fn u64s(&mut self, n: u32) -> (r: Result<Vec<u64>, GgufError>)
        requires
            old(self).wf(),
        ensures
            final(self).follows(*old(self)),
            agrees(viewed(r), final(self).pos as int, get_u64s(old(self).buf@, old(self).pos as int, n as nat)),
    {
        let ghost (b, p) = (self.buf@, self.pos as int);
        let mut v: Vec<u64> = Vec::new();
        let mut i: u32 = 0;
        while i < n
            invariant
                0 <= i <= n,
                self.follows(*old(self)),
                b == self.buf@,
                p == old(self).pos,
                get_u64s(b, p, i as nat) == Ok::<(Seq<u64>, int), GgufError>(
                    (v@, self.pos as int),
                ),
            decreases n - i,
        {
            match self.u64() {
                Ok(x) => v.push(x),
                Err(e) => {
                    proof {
                        lemma_u64s_fail(b, p, (i + 1) as nat, n as nat);
                    }
                    return Err(e);
                },
            }
            i += 1;
        }
        Ok(v)
    }
}

/// Reads the elements of a metadata array given their type tag.
fn read_array(c: &mut Cursor, inner: u32, n: u64) -> (r: Result<MetaValue, GgufError>)
    requires
        old(c).wf(),
    ensures
        final(c).follows(*old(c)),
        agrees(viewed(r), final(c).pos as int, get_array(old(c).buf@, old(c).pos as int, inner, n as nat)),
{
    if inner == T_STRING {
        let v: Vec<String> = c.strings(n)?;
        Ok(MetaValue::ArrStr(v))
    } else if inner == T_INT32 {
        let v: Vec<i32> = c.i32s(n)?;
        Ok(MetaValue::ArrI32(v))
    } else if inner == T_FLOAT32 {
        let v: Vec<u32> = c.u32s(n)?;
        Ok(MetaValue::ArrF32(v))
    } else {
        Err(GgufError::UnsupportedArrayType(inner))
    }
}

/// Reads one metadata value given its type tag.
fn read_value(c: &mut Cursor, tag: u32) -> (r: Result<MetaValue, GgufError>)
    requires
        old(c).wf(),
    ensures
        final(c).follows(*old(c)),
        agrees(viewed(r), final(c).pos as int, get_value(old(c).buf@, old(c).pos as int, tag)),
{
    if tag == T_UINT32 {
        let x: u32 = c.u32()?;
        Ok(MetaValue::U32(x))
    } else if tag == T_FLOAT32 {
        let x: u32 = c.u32()?;
        Ok(MetaValue::F32(x))
    } else if tag == T_BOOL {
        let x: u8 = c.u8()?;
        Ok(MetaValue::Bool(x != 0))
    } else if tag == T_STRING {
        let x: String = c.string()?;
        Ok(MetaValue::Str(x))
    } else if tag == T_ARRAY {
        let inner: u32 = c.u32()?;
        let n: u64 = c.u64()?;
        read_array(c, inner, n)
    } else {
        Err(GgufError::UnsupportedValueType(tag))
    }
}

/// One entry in the tensor index.
#[derive(Clone, Debug)]
pub struct TensorInfo {
    pub name: String,
    /// Dimensions in GGUF `ne` order (innermost/contiguous first). A row-major
    /// `[rows, cols]` weight is stored as `dims = [cols, rows]`.
    pub dims: Vec<u64>,
    pub dtype: GgmlType,
    /// Byte offset relative to the start of the data section.
    pub offset: u64,
}

impl View for TensorInfo {
    type V = TensorView;

    open spec fn view(&self) -> TensorView {
        TensorView { name: self.name@, dims: self.dims@, dtype: self.dtype, offset: self.offset }
    }
}

impl TensorInfo {
    /// Total element count, the product of the dims, if it and the partial
    /// products stay within 64 bits.
    pub fn checked_elem_count(&self) -> (n: Option<u64>)
        ensures
            n == dims_product(self@.dims),
    {
        let mut n: u64 = 1;
        let mut i: usize = 0;
        assert(self.dims@.take(0) =~= seq![]);
        while i < self.dims.len()
            invariant
                i <= self.dims@.len(),
                dims_product(self.dims@.take(i as int)) == Some(n),
            decreases self.dims@.len() - i,
        {
            let ghost part = self.dims@.take(i + 1);
            assert(part.drop_last() =~= self.dims@.take(i as int));
            match n.checked_mul(self.dims[i]) {
                Some(m) => {
                    n = m;
                },
                None => {
                    proof {
                        lemma_product_overflow(self.dims@, i + 1);
                    }
                    return None;
                },
            }
            i += 1;
        }
        assert(self.dims@.take(i as int) =~= self.dims@);
        Some(n)
    }

    /// Total element count = product of dims.
    pub fn elem_count(&self) -> (n: usize)
        requires
            dims_product(self@.dims) matches Some(x) && x <= usize::MAX,
        ensures
            dims_product(self@.dims) == Some(n as u64),
    {
        match self.checked_elem_count() {
            Some(n) => n as usize,
            None => 0,
        }
    }
}

proof fn lemma_product_overflow(dims: Seq<u64>, k: int)
    requires
        0 <= k <= dims.len(),
        dims_product(dims.take(k)) is None,
    ensures
        dims_product(dims) is None,
    decreases dims.len() - k,
{
    if k == dims.len() {
        assert(dims.take(k) =~= dims);
    } else {
        assert(dims.take(k + 1).drop_last() =~= dims.take(k));
        lemma_product_overflow(dims, k + 1);
    }
}

/// Reads one metadata entry.
fn read_entry(c: &mut Cursor) -> (r: Result<(String, MetaValue), GgufError>)
    requires
        old(c).wf(),
    ensures
        final(c).follows(*old(c)),
        agrees(viewed(r), final(c).pos as int, get_entry(old(c).buf@, old(c).pos as int)),
{
    let key: String = c.string()?;
    let tag: u32 = c.u32()?;
    let value: MetaValue = read_value(c, tag)?;
    Ok((key, value))
}

/// Reads one entry of the tensor index.
fn read_tensor(c: &mut Cursor) -> (r: Result<TensorInfo, GgufError>)
    requires
        old(c).wf(),
    ensures
        final(c).follows(*old(c)),
        agrees(viewed(r), final(c).pos as int, get_tensor(old(c).buf@, old(c).pos as int)),
{
    let name: String = c.string()?;
    let n_dims: u32 = c.u32()?;
    let dims: Vec<u64> = c.u64s(n_dims)?;
    let (dtype, offset) = read_placement(c)?;
    Ok(TensorInfo { name, dims, dtype, offset })
}

/// Reads what follows the dims of a tensor: its type and its offset.
fn read_placement(c: &mut Cursor) -> (r: Result<(GgmlType, u64), GgufError>)
    requires
        old(c).wf(),
    ensures
        final(c).follows(*old(c)),
        agrees(r, final(c).pos as int, get_placement(old(c).buf@, old(c).pos as int)),
{
    let tag: u32 = c.u32()?;
    match GgmlType::from_u32(tag) {
        None => Err(GgufError::UnsupportedTensorType(tag)),
        Some(dtype) => {
            assert(type_of_tag(tag) == Some(dtype));
            let offset: u64 = c.u64()?;
            Ok((dtype, offset))
        },
    }
}

/// Reads the magic bytes, the version, and the tensor and entry counts.
fn read_header(c: &mut Cursor) -> (r: Result<(u64, u64), GgufError>)
    requires
        old(c).wf(),
        old(c).pos == 0,
    ensures
        final(c).follows(*old(c)),
        agrees(r, final(c).pos as int, get_header(old(c).buf@)),
{
    let m: &[u8] = c.take(4)?;
    if m[0] != 0x47 || m[1] != 0x47 || m[2] != 0x55 || m[3] != 0x46 {
        assert(m@ != magic()) by {
            assert(magic()[0] == 0x47 && magic()[1] == 0x47 && magic()[2] == 0x55 && magic()[3]
                == 0x46);
        }
        return Err(GgufError::BadMagic);
    }
    assert(m@ =~= magic());
    let version: u32 = c.u32()?;
    if version != 3 {
        return Err(GgufError::UnsupportedVersion(version));
    }
    let tensor_count: u64 = c.u64()?;
    let entry_count: u64 = c.u64()?;
    Ok((tensor_count, entry_count))
}

/// Whether a metadata map holds what the entries say.
spec fn meta_agrees(meta: Map<Seq<char>, MetaValue>, entries: Seq<(Seq<char>, MetaView)>) -> bool {
    forall|k: Seq<char>| #[trigger]
        find_value(entries, k) == (if meta.contains_key(k) {
            Some(meta[k]@)
        } else {
            None
        })
}

/// Whether a list of tensors and a map of their names hold what the index says.
spec fn index_agrees(
    list: Seq<TensorInfo>,
    by_name: Map<Seq<char>, usize>,
    tensors: Seq<TensorView>,
) -> bool {
    &&& list.len() == tensors.len()
    &&& forall|i: int| 0 <= i < list.len() ==> #[trigger] list[i]@ == tensors[i]
    &&& forall|k: Seq<char>| #[trigger]
        find_tensor(tensors, k) == (if by_name.contains_key(k) {
            Some(by_name[k] as int)
        } else {
            None
        })
}

/// Reads the metadata entries into a map.
fn read_entries(c: &mut Cursor, n: u64) -> (r: Result<StringHashMap<MetaValue>, GgufError>)
    requires
        old(c).wf(),
    ensures
        final(c).follows(*old(c)),
        match (r, get_entries(old(c).buf@, old(c).pos as int, n as nat)) {
            (Ok(m), Ok((v, q))) => meta_agrees(m@, v) && q == final(c).pos,
            (Err(e), Err(f)) => e == f,
            _ => false,
        },
{
    let ghost (b, p) = (c.buf@, c.pos as int);
    let ghost mut v: Seq<(Seq<char>, MetaView)> = seq![];
    let mut m: StringHashMap<MetaValue> = StringHashMap::new();
    let mut i: u64 = 0;
    while i < n
        invariant
            0 <= i <= n,
            c.follows(*old(c)),
            b == c.buf@,
            p == old(c).pos,
            get_entries(b, p, i as nat) == Ok::<(Seq<(Seq<char>, MetaView)>, int), GgufError>(
                (v, c.pos as int),
            ),
            meta_agrees(m@, v),
        decreases n - i,
    {
        match read_entry(c) {
            Ok((key, value)) => {
                let ghost before = m@;
                let ghost longer = v.push((key@, value@));
                m.insert(key, value);
                proof {
                    assert forall|k: Seq<char>| #[trigger]
                        find_value(longer, k) == (if m@.contains_key(k) {
                            Some(m@[k]@)
                        } else {
                            None
                        }) by {
                        assert(longer.drop_last() =~= v);
                        assert(find_value(v, k) == (if before.contains_key(k) {
                            Some(before[k]@)
                        } else {
                            None
                        }));
                    }
                    v = longer;
                }
            },
            Err(e) => {
                proof {
                    lemma_entries_fail(b, p, (i + 1) as nat, n as nat);
                }
                return Err(e);
            },
        }
        i += 1;
    }
    Ok(m)
}

/// Reads the tensor index into a list and a map of the names.
fn read_tensors(c: &mut Cursor, n: u64) -> (r: Result<
    (Vec<TensorInfo>, StringHashMap<usize>),
    GgufError,
>)
    requires
        old(c).wf(),
    ensures
        final(c).follows(*old(c)),
        match (r, get_tensors(old(c).buf@, old(c).pos as int, n as nat)) {
            (Ok((list, by_name)), Ok((v, q))) => index_agrees(list@, by_name@, v) && q
                == final(c).pos,
            (Err(e), Err(f)) => e == f,
            _ => false,
        },
{
    let ghost (b, p) = (c.buf@, c.pos as int);
    let ghost mut v: Seq<TensorView> = seq![];
    let mut list: Vec<TensorInfo> = Vec::new();
    let mut by_name: StringHashMap<usize> = StringHashMap::new();
    let mut i: u64 = 0;
    while i < n
        invariant
            0 <= i <= n,
            c.follows(*old(c)),
            b == c.buf@,
            p == old(c).pos,
            get_tensors(b, p, i as nat) == Ok::<(Seq<TensorView>, int), GgufError>(
                (v, c.pos as int),
            ),
            index_agrees(list@, by_name@, v),
        decreases n - i,
    {
        match read_tensor(c) {
            Ok(t) => {
                let ghost before = by_name@;
                let ghost longer = v.push(t@);
                by_name.insert(t.name.clone(), list.len());
                list.push(t);
                proof {
                    assert forall|k: Seq<char>| #[trigger]
                        find_tensor(longer, k) == (if by_name@.contains_key(k) {
                            Some(by_name@[k] as int)
                        } else {
                            None
                        }) by {
                        assert(longer.drop_last() =~= v);
                        assert(find_tensor(v, k) == (if before.contains_key(k) {
                            Some(before[k] as int)
                        } else {
                            None
                        }));
                    }
                    v = longer;
                }
            },
            Err(e) => {
                proof {
                    lemma_tensors_fail(b, p, (i + 1) as nat, n as nat);
                }
                return Err(e);
            },
        }
        i += 1;
    }
    Ok((list, by_name))
}

/// The parsed index of a file.
struct Index {
    meta: StringHashMap<MetaValue>,
    tensors: Vec<TensorInfo>,
    tensor_by_name: StringHashMap<usize>,
    data_start: usize,
}

impl Index {
    spec fn holds(self, c: Content) -> bool {
        &&& meta_agrees(self.meta@, c.entries)
        &&& index_agrees(self.tensors@, self.tensor_by_name@, c.tensors)
        &&& self.data_start == c.data_start
    }
}

/// Pads a position to the alignment of the data section, if that stays within
/// the length of the file.
fn align_up(pos: usize, len: usize) -> (r: Option<usize>)
    requires
        pos <= len,
    ensures
        match r {
            Some(q) => q == aligned(pos as int) && q <= len,
            None => aligned(pos as int) > len,
        },
{
    let gap: usize = (ALIGNMENT - pos % ALIGNMENT) % ALIGNMENT;
    if gap > len - pos {
        None
    } else {
        Some(pos + gap)
    }
}

/// Reads what follows the header.
fn read_body(cursor: Cursor, tensor_count: u64, entry_count: u64) -> (r: Result<Index, GgufError>)
    requires
        cursor.wf(),
    ensures
        match (
            r,
            get_body(cursor.buf@, cursor.pos as int, tensor_count as nat, entry_count as nat),
        ) {
            (Ok(i), Ok(c)) => i.holds(c),
            (Err(e), Err(f)) => e == f,
            _ => false,
        },
{
    let mut c: Cursor = cursor;
    let meta: StringHashMap<MetaValue> = read_entries(&mut c, entry_count)?;
    let (tensors, tensor_by_name) = read_tensors(&mut c, tensor_count)?;
    match align_up(c.pos, c.buf.len()) {
        Some(data_start) => Ok(Index { meta, tensors, tensor_by_name, data_start }),
        None => Err(GgufError::DataStartPastEnd),
    }
}

/// Bytes backing a file: a view of bytes that live elsewhere, such as a memory
/// map, or a buffer of its own.
enum Backing<'a> {
    Borrowed(&'a [u8]),
    Owned(Vec<u8>),
}

impl<'a> Backing<'a> {
    spec fn content(self) -> Seq<u8> {
        match self {
            Backing::Borrowed(b) => b@,
            Backing::Owned(v) => v@,
        }
    }

    fn bytes(&self) -> (b: &[u8])
        ensures
            b@ == self.content(),
    {
        match self {
            Backing::Borrowed(b) => b,
            Backing::Owned(v) => v.as_slice(),
        }
    }
}

/// A GGUF file with its metadata and tensor index parsed.
pub struct GgufFile<'a> {
    backing: Backing<'a>,
    meta: StringHashMap<MetaValue>,
    tensors: Vec<TensorInfo>,
    tensor_by_name: StringHashMap<usize>,
    data_start: usize,
}

impl<'a> GgufFile<'a> {
    #[verifier::type_invariant]
    spec fn wf(self) -> bool {
        match get_file(self.bytes()) {
            Ok(c) => {
                &&& meta_agrees(self.meta@, c.entries)
                &&& index_agrees(self.tensors@, self.tensor_by_name@, c.tensors)
                &&& self.data_start == c.data_start
            },
            Err(_) => false,
        }
    }

    /// The bytes of the file.
    pub closed spec fn bytes(self) -> Seq<u8> {
        self.backing.content()
    }

    /// What the bytes of the file say.
    pub open spec fn content(self) -> Content {
        get_file(self.bytes())->Ok_0
    }

    /// The value of a metadata key.
    pub open spec fn value(self, key: Seq<char>) -> Option<MetaView> {
        find_value(self.content().entries, key)
    }

    /// The value of a key, if it is an unsigned number.
    pub open spec fn u32_value(self, key: Seq<char>) -> Option<u32> {
        match self.value(key) {
            Some(MetaView::U32(x)) => Some(x),
            _ => None,
        }
    }

    /// The value of a key, if it is a single-precision number.
    pub open spec fn f32_value(self, key: Seq<char>) -> Option<u32> {
        match self.value(key) {
            Some(MetaView::F32(x)) => Some(x),
            _ => None,
        }
    }

    /// The value of a key, if it is a text.
    pub open spec fn str_value(self, key: Seq<char>) -> Option<Seq<char>> {
        match self.value(key) {
            Some(MetaView::Str(x)) => Some(x),
            _ => None,
        }
    }

    /// The value of a key, if it is an array of texts.
    pub open spec fn strs_value(self, key: Seq<char>) -> Option<Seq<Seq<char>>> {
        match self.value(key) {
            Some(MetaView::ArrStr(x)) => Some(x),
            _ => None,
        }
    }

    /// The value of a key, if it is an array of signed numbers.
    pub open spec fn i32s_value(self, key: Seq<char>) -> Option<Seq<i32>> {
        match self.value(key) {
            Some(MetaView::ArrI32(x)) => Some(x),
            _ => None,
        }
    }

    /// The value of a key, if it is an array of single-precision numbers.
    pub open spec fn f32s_value(self, key: Seq<char>) -> Option<Seq<u32>> {
        match self.value(key) {
            Some(MetaView::ArrF32(x)) => Some(x),
            _ => None,
        }
    }

    /// Parses a file already loaded into memory.
    pub fn from_bytes(bytes: Vec<u8>) -> (r: Result<GgufFile<'static>, GgufError>)
        ensures
            match r {
                Ok(g) => get_file(bytes@) is Ok && g.bytes() == bytes@,
                Err(e) => get_file(bytes@) == Err::<Content, GgufError>(e),
            },
    {
        GgufFile::parse(Backing::Owned(bytes))
    }

    /// Parses a file whose bytes stay where they are.
    pub fn from_slice(bytes: &'a [u8]) -> (r: Result<Self, GgufError>)
        ensures
            match r {
                Ok(g) => get_file(bytes@) is Ok && g.bytes() == bytes@,
                Err(e) => get_file(bytes@) == Err::<Content, GgufError>(e),
            },
    {
        Self::parse(Backing::Borrowed(bytes))
    }

    fn parse(backing: Backing<'a>) -> (r: Result<Self, GgufError>)
        ensures
            match r {
                Ok(g) => get_file(backing.content()) is Ok && g.bytes() == backing.content(),
                Err(e) => get_file(backing.content()) == Err::<Content, GgufError>(e),
            },
    {
        let mut c: Cursor = Cursor::new(backing.bytes());
        let (tensor_count, entry_count) = read_header(&mut c)?;
        let index: Index = read_body(c, tensor_count, entry_count)?;
        Ok(
            GgufFile {
                backing,
                meta: index.meta,
                tensors: index.tensors,
                tensor_by_name: index.tensor_by_name,
                data_start: index.data_start,
            },
        )
    }

    /// Raw metadata lookup.
    pub fn metadata(&self, key: &str) -> (v: Option<&MetaValue>)
        ensures
            match v {
                Some(x) => self.value(key@) == Some(x@),
                None => self.value(key@) is None,
            },
    {
        proof {
            use_type_invariant(self);
        }
        assert(find_value(self.content().entries, key@) == self.value(key@));
        self.meta.get(key)
    }

    pub fn get_u32(&self, key: &str) -> (v: Option<u32>)
        ensures
            v == self.u32_value(key@),
    {
        match self.metadata(key) {
            Some(MetaValue::U32(x)) => Some(*x),
            _ => None,
        }
    }

    /// The bit pattern of a single-precision number.
    pub fn get_f32(&self, key: &str) -> (v: Option<u32>)
        ensures
            v == self.f32_value(key@),
    {
        match self.metadata(key) {
            Some(MetaValue::F32(x)) => Some(*x),
            _ => None,
        }
    }

    pub fn get_str(&self, key: &str) -> (v: Option<&str>)
        ensures
            match v {
                Some(x) => self.str_value(key@) == Some(x@),
                None => self.str_value(key@) is None,
            },
    {
        match self.metadata(key) {
            Some(MetaValue::Str(x)) => Some(x.as_str()),
            _ => None,
        }
    }

    pub fn get_arr_str(&self, key: &str) -> (v: Option<&[String]>)
        ensures
            match v {
                Some(x) => self.strs_value(key@) == Some(texts(x@)),
                None => self.strs_value(key@) is None,
            },
    {
        match self.metadata(key) {
            Some(MetaValue::ArrStr(x)) => Some(x.as_slice()),
            _ => None,
        }
    }

    pub fn get_arr_i32(&self, key: &str) -> (v: Option<&[i32]>)
        ensures
            match v {
                Some(x) => self.i32s_value(key@) == Some(x@),
                None => self.i32s_value(key@) is None,
            },
    {
        match self.metadata(key) {
            Some(MetaValue::ArrI32(x)) => Some(x.as_slice()),
            _ => None,
        }
    }

    /// The bit patterns of an array of single-precision numbers.
    pub fn get_arr_f32(&self, key: &str) -> (v: Option<&[u32]>)
        ensures
            match v {
                Some(x) => self.f32s_value(key@) == Some(x@),
                None => self.f32s_value(key@) is None,
            },
    {
        match self.metadata(key) {
            Some(MetaValue::ArrF32(x)) => Some(x.as_slice()),
            _ => None,
        }
    }

    /// All tensors, in file order.
    pub fn tensors(&self) -> (v: &[TensorInfo])
        ensures
            v@.len() == self.content().tensors.len(),
            forall|i: int| 0 <= i < v@.len() ==> #[trigger] v@[i]@ == self.content().tensors[i],
    {
        proof {
            use_type_invariant(self);
        }
        self.tensors.as_slice()
    }

    /// The index entry of a tensor.
    pub open spec fn tensor(self, name: Seq<char>) -> Option<TensorView> {
        match find_tensor(self.content().tensors, name) {
            Some(i) => Some(self.content().tensors[i]),
            None => None,
        }
    }

    /// Look up a tensor's metadata by name.
    pub fn tensor_info(&self, name: &str) -> (v: Option<&TensorInfo>)
        ensures
            match v {
                Some(t) => self.tensor(name@) == Some(t@),
                None => self.tensor(name@) is None,
            },
    {
        proof {
            use_type_invariant(self);
            lemma_find_tensor(self.content().tensors, name@);
        }
        match self.tensor_by_name.get(name) {
            Some(i) => Some(&self.tensors[*i]),
            None => None,
        }
    }

    /// The bytes of a tensor in the data section, with its type; or why there
    /// are none.
    pub open spec fn raw(self, name: Seq<char>) -> Result<(Seq<u8>, GgmlType), GgufError> {
        match self.tensor(name) {
            None => Err(GgufError::NoSuchTensor),
            Some(t) => match tensor_range(self.content(), self.bytes().len() as int, t) {
                Ok((start, end)) => Ok((self.bytes().subrange(start, end), t.dtype)),
                Err(e) => Err(e),
            },
        }
    }

    /// Raw tensor bytes plus dtype, for any supported type (F32 or quantized).
    /// Byte length is `block_bytes * elem_count / block_elems`.
    pub fn tensor_raw(&self, name: &str) -> (r: Result<(&[u8], GgmlType), GgufError>)
        ensures
            match r {
                Ok((b, t)) => self.raw(name@) == Ok::<(Seq<u8>, GgmlType), GgufError>((b@, t)),
                Err(e) => self.raw(name@) == Err::<(Seq<u8>, GgmlType), GgufError>(e),
            },
    {
        proof {
            use_type_invariant(self);
        }
        let info: &TensorInfo = match self.tensor_info(name) {
            Some(t) => t,
            None => return Err(GgufError::NoSuchTensor),
        };
        let elems: u64 = match info.checked_elem_count() {
            Some(n) => n,
            None => return Err(GgufError::TensorRangeOverflow),
        };
        let be: u64 = info.dtype.block_elems() as u64;
        if elems % be != 0 {
            return Err(GgufError::PartialBlock);
        }
        let all: &[u8] = self.backing.bytes();
        let start: u128 = self.data_start as u128 + info.offset as u128;
        let (blocks, bb) = (elems / be, info.dtype.block_bytes() as u64);
        assert(0 <= blocks * bb <= 210 * u64::MAX) by (nonlinear_arith)
            requires
                0 <= blocks <= u64::MAX,
                0 <= bb <= 210,
        ;
        let end: u128 = start + blocks as u128 * bb as u128;
        if end > u64::MAX as u128 {
            return Err(GgufError::TensorRangeOverflow);
        }
        if end > all.len() as u128 {
            return Err(GgufError::TensorPastEnd);
        }
        Ok((slice_subrange(all, start as usize, end as usize), info.dtype))
    }

    /// The bit patterns of an F32 tensor, in data order; or why there are none.
    pub open spec fn singles(self, name: Seq<char>) -> Result<Seq<u32>, GgufError> {
        match self.tensor(name) {
            None => Err(GgufError::NoSuchTensor),
            Some(t) => if t.dtype != GgmlType::F32 {
                Err(GgufError::NotF32(t.dtype))
            } else {
                match self.raw(name) {
                    Ok((b, _)) => Ok(Seq::new((b.len() / 4) as nat, |i: int| le_u32(b, 4 * i))),
                    Err(e) => Err(e),
                }
            },
        }
    }

    /// Zero-copy view into the data section for the F32 tensor `name`. Errors if
    /// the tensor is missing or not F32.
    pub fn tensor_f32(&self, name: &str) -> (r: Result<Vector<'_>, GgufError>)
        ensures
            viewed(r) == self.singles(name@),
    {
        let info: &TensorInfo = match self.tensor_info(name) {
            Some(t) => t,
            None => return Err(GgufError::NoSuchTensor),
        };
        if info.dtype != GgmlType::F32 {
            return Err(GgufError::NotF32(info.dtype));
        }
        let (b, _) = self.tensor_raw(name)?;
        Ok(Vector::over(b))
    }
}

/// A tensor that is found is in the index, under its name.
pub proof fn lemma_find_tensor(tensors: Seq<TensorView>, name: Seq<char>)
    ensures
        match find_tensor(tensors, name) {
            Some(i) => 0 <= i < tensors.len() && tensors[i].name == name,
            None => forall|i: int| 0 <= i < tensors.len() ==> #[trigger] tensors[i].name != name,
        },
    decreases tensors.len(),
{
    if tensors.len() > 0 && tensors.last().name != name {
        lemma_find_tensor(tensors.drop_last(), name);
        if find_tensor(tensors, name) is None {
            assert forall|i: int| 0 <= i < tensors.len() implies #[trigger] tensors[i].name
                != name by {
                if i < tensors.len() - 1 {
                    assert(tensors.drop_last()[i] == tensors[i]);
                }
            }
        }
    }
}

} // verus!
