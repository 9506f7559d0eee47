//! Files that are not read: the first thing that is wrong with them is said.

use vstd::prelude::*;
use vstd::utf8::valid_utf8;

use crate::bits::{le_u32, le_u64};
use crate::gguf::format::{
    aligned, get_array, get_body, get_entries, get_entry, get_header, get_placement, get_string,
    get_strings, get_tensor, get_tensors, get_u32, get_u32s, get_u64s, get_value, magic, Content,
    MetaView, TensorView,
};
use crate::gguf::{GgufError, GgufFile};
use crate::laws::layout::{
    holds_entries, holds_tensors, holds_text, holds_texts, lemma_entries, lemma_longs,
    lemma_numbers, lemma_tag, lemma_tensors, lemma_text, lemma_texts, lemma_words, long, word,
};

verus! {

/// Whether `n` bytes at `p` are not there, and `e` says so: they would end where no
/// position can be, or behind the end of the file.
pub open spec fn is_short(b: Seq<u8>, p: int, n: int, e: GgufError) -> bool {
    if p + n > u64::MAX {
        e == GgufError::OffsetOverflow
    } else {
        p + n > b.len() && e == GgufError::UnexpectedEof
    }
}

/// What is wrong with a text: its length or its bytes are not there, or they are
/// not UTF-8.
pub open spec fn text_faults(b: Seq<u8>, p: int, e: GgufError) -> bool {
    if p + 8 > b.len() {
        is_short(b, p, 8, e)
    } else {
        let q = p + 8 + long(b, p);
        if q > b.len() {
            is_short(b, p + 8, long(b, p), e)
        } else {
            !valid_utf8(b.subrange(p + 8, q)) && e == GgufError::InvalidUtf8
        }
    }
}

/// What is wrong with `n` texts: with one of them, behind others.
pub open spec fn texts_fault(b: Seq<u8>, p: int, n: int, e: GgufError) -> bool {
    exists|cuts: Seq<int>, v: Seq<Seq<char>>| #[trigger]
        holds_texts(b, cuts, v) && cuts[0] == p && v.len() < n && text_faults(b, cuts.last(), e)
}

/// What is wrong with `n` numbers of `size` bytes: one of them is not there.
pub open spec fn numbers_fault(b: Seq<u8>, p: int, size: int, n: int, e: GgufError) -> bool {
    exists|k: int|
        0 <= k < n && p + size * k <= b.len() && #[trigger] is_short(b, p + size * k, size, e)
}

/// What is wrong with a value: its tag or its bytes are not there, its tag or the
/// element tag of an array is not one that is read, or something is wrong with its
/// text or its elements.
pub open spec fn value_faults(b: Seq<u8>, p: int, e: GgufError) -> bool {
    if p + 4 > b.len() {
        is_short(b, p, 4, e)
    } else {
        let tag = word(b, p);
        if tag == 4 || tag == 6 {
            is_short(b, p + 4, 4, e)
        } else if tag == 7 {
            is_short(b, p + 4, 1, e)
        } else if tag == 8 {
            text_faults(b, p + 4, e)
        } else if tag == 9 {
            if p + 8 > b.len() {
                is_short(b, p + 4, 4, e)
            } else if p + 16 > b.len() {
                is_short(b, p + 8, 8, e)
            } else {
                let (inner, n) = (word(b, p + 4), long(b, p + 8));
                if inner == 8 {
                    texts_fault(b, p + 16, n, e)
                } else if inner == 5 || inner == 6 {
                    numbers_fault(b, p + 16, 4, n, e)
                } else {
                    e == GgufError::UnsupportedArrayType(inner as u32)
                }
            }
        } else {
            e == GgufError::UnsupportedValueType(tag as u32)
        }
    }
}

/// What is wrong with an entry: with its key, or with its value.
pub open spec fn entry_faults(b: Seq<u8>, p: int, e: GgufError) -> bool {
    ||| text_faults(b, p, e)
    ||| exists|s: Seq<char>, m: int| #[trigger] holds_text(b, p, s, m) && value_faults(b, m, e)
}

/// What is wrong with what follows the name of a tensor: the number of dims, the
/// dims, the type tag or the place are not there, or the tag is none that is read.
pub open spec fn shape_faults(b: Seq<u8>, m: int, e: GgufError) -> bool {
    if m + 4 > b.len() {
        is_short(b, m, 4, e)
    } else {
        let s = m + 4 + 8 * word(b, m);
        if s > b.len() {
            numbers_fault(b, m + 4, 8, word(b, m), e)
        } else if s + 4 > b.len() {
            is_short(b, s, 4, e)
        } else {
            let tag = word(b, s);
            if tag == 0 || tag == 2 || tag == 8 || tag == 14 {
                is_short(b, s + 4, 8, e)
            } else {
                e == GgufError::UnsupportedTensorType(tag as u32)
            }
        }
    }
}

/// What is wrong with an entry of the tensor index.
pub open spec fn tensor_faults(b: Seq<u8>, p: int, e: GgufError) -> bool {
    ||| text_faults(b, p, e)
    ||| exists|s: Seq<char>, m: int| #[trigger] holds_text(b, p, s, m) && shape_faults(b, m, e)
}

/// What is wrong with the start of a file: it is too short, does not start with
/// `GGUF`, or is of another version than 3.
pub open spec fn header_faults(b: Seq<u8>, e: GgufError) -> bool {
    if b.len() < 4 {
        e == GgufError::UnexpectedEof
    } else if !(b[0] == 0x47 && b[1] == 0x47 && b[2] == 0x55 && b[3] == 0x46) {
        e == GgufError::BadMagic
    } else if b.len() < 8 {
        e == GgufError::UnexpectedEof
    } else if word(b, 4) != 3 {
        e == GgufError::UnsupportedVersion(word(b, 4) as u32)
    } else {
        b.len() < 24 && e == GgufError::UnexpectedEof
    }
}

/// Whether something is wrong with one of the entries, behind others.
pub open spec fn entries_fault(
    b: Seq<u8>,
    cuts: Seq<int>,
    v: Seq<(Seq<char>, MetaView)>,
    e: GgufError,
) -> bool {
    &&& holds_entries(b, cuts, v)
    &&& cuts[0] == 24
    &&& v.len() < long(b, 16)
    &&& entry_faults(b, cuts.last(), e)
}

/// Whether the entries are in order, and something is wrong with one of the
/// tensors, behind others, or the data would start behind the end of the file.
pub open spec fn index_faults(
    b: Seq<u8>,
    cuts: Seq<int>,
    v: Seq<(Seq<char>, MetaView)>,
    marks: Seq<int>,
    t: Seq<TensorView>,
    e: GgufError,
) -> bool {
    &&& holds_entries(b, cuts, v)
    &&& cuts[0] == 24
    &&& v.len() == long(b, 16)
    &&& holds_tensors(b, marks, t)
    &&& marks[0] == cuts.last()
    &&& if t.len() < long(b, 8) {
        tensor_faults(b, marks.last(), e)
    } else {
        &&& t.len() == long(b, 8)
        &&& e == GgufError::DataStartPastEnd
        &&& exists|q: int|
            q % 32 == 0 && marks.last() <= q < marks.last() + 32 && #[trigger] is_behind(b, q)
    }
}

/// Whether a position is behind the end of a file.
pub open spec fn is_behind(b: Seq<u8>, q: int) -> bool {
    q > b.len()
}

proof fn lemma_text_fault(b: Seq<u8>, p: int)
    requires
        0 <= p,
        b.len() <= u64::MAX,
        get_string(b, p) is Err,
    ensures
        text_faults(b, p, get_string(b, p)->Err_0),
{
    lemma_words(b, p);
}

proof fn lemma_texts_fault(b: Seq<u8>, p: int, n: nat)
    requires
        0 <= p,
        b.len() <= u64::MAX,
        get_strings(b, p, n) is Err,
    ensures
        texts_fault(b, p, n as int, get_strings(b, p, n)->Err_0),
    decreases n,
{
    let k = (n - 1) as nat;
    let e = get_strings(b, p, n)->Err_0;
    if get_strings(b, p, k) is Err {
        lemma_texts_fault(b, p, k);
        let (cuts, v) = choose|cuts: Seq<int>, v: Seq<Seq<char>>| #[trigger]
            holds_texts(b, cuts, v) && cuts[0] == p && v.len() < k && text_faults(
                b,
                cuts.last(),
                e,
            );
        assert(holds_texts(b, cuts, v));
    } else {
        let cuts = lemma_texts(b, p, k);
        let v = get_strings(b, p, k)->Ok_0.0;
        lemma_text_fault(b, cuts.last());
        assert(holds_texts(b, cuts, v));
    }
}

proof fn lemma_numbers_fault(b: Seq<u8>, p: int, n: nat)
    requires
        0 <= p <= b.len(),
        b.len() <= u64::MAX,
        get_u32s(b, p, n) is Err,
    ensures
        numbers_fault(b, p, 4, n as int, get_u32s(b, p, n)->Err_0),
    decreases n,
{
    let k = (n - 1) as nat;
    let e = get_u32s(b, p, n)->Err_0;
    if get_u32s(b, p, k) is Err {
        lemma_numbers_fault(b, p, k);
        let j = choose|j: int|
            0 <= j < k && p + 4 * j <= b.len() && #[trigger] is_short(b, p + 4 * j, 4, e);
        assert(is_short(b, p + 4 * j, 4, e));
    } else {
        lemma_numbers(b, p, k);
        assert(is_short(b, p + 4 * k, 4, e));
    }
}

proof fn lemma_longs_fault(b: Seq<u8>, p: int, n: nat)
    requires
        0 <= p <= b.len(),
        b.len() <= u64::MAX,
        get_u64s(b, p, n) is Err,
    ensures
        numbers_fault(b, p, 8, n as int, get_u64s(b, p, n)->Err_0),
        p + 8 * n > b.len(),
    decreases n,
{
    let k = (n - 1) as nat;
    let e = get_u64s(b, p, n)->Err_0;
    if get_u64s(b, p, k) is Err {
        lemma_longs_fault(b, p, k);
        let j = choose|j: int|
            0 <= j < k && p + 8 * j <= b.len() && #[trigger] is_short(b, p + 8 * j, 8, e);
        assert(is_short(b, p + 8 * j, 8, e));
    } else {
        lemma_longs(b, p, k);
        if k > 0 {
            let i = k - 1;
            assert(get_u64s(b, p, k) is Ok);
            lemma_longs_end(b, p, k);
        }
        assert(is_short(b, p + 8 * k, 8, e));
    }
}

proof fn lemma_longs_end(b: Seq<u8>, p: int, n: nat)
    requires
        0 <= p <= b.len(),
        get_u64s(b, p, n) is Ok,
    ensures
        p + 8 * n <= b.len(),
    decreases n,
{
    if n > 0 {
        lemma_longs(b, p, (n - 1) as nat);
    }
}

proof fn lemma_value_fault(b: Seq<u8>, p: int)
    requires
        0 <= p,
        b.len() <= u64::MAX,
        get_u32(b, p) is Ok,
        get_value(b, p + 4, get_u32(b, p)->Ok_0.0) is Err,
    ensures
        value_faults(b, p, get_value(b, p + 4, get_u32(b, p)->Ok_0.0)->Err_0),
{
    lemma_words(b, p);
    lemma_words(b, p + 4);
    lemma_words(b, p + 8);
    let tag = le_u32(b, p);
    if tag == 8 {
        lemma_text_fault(b, p + 4);
    } else if tag == 9 && p + 16 <= b.len() {
        let (inner, n) = (le_u32(b, p + 4), le_u64(b, p + 8) as nat);
        assert(get_value(b, p + 4, tag) == get_array(b, p + 16, inner, n));
        if inner == 8 {
            lemma_texts_fault(b, p + 16, n);
        } else if inner == 5 || inner == 6 {
            lemma_numbers_fault(b, p + 16, n);
        }
    }
}

proof fn lemma_entry_fault(b: Seq<u8>, p: int)
    requires
        0 <= p,
        b.len() <= u64::MAX,
        get_entry(b, p) is Err,
    ensures
        entry_faults(b, p, get_entry(b, p)->Err_0),
{
    let e = get_entry(b, p)->Err_0;
    if get_string(b, p) is Err {
        lemma_text_fault(b, p);
    } else {
        lemma_text(b, p);
        let (s, m) = get_string(b, p)->Ok_0;
        if get_u32(b, m) is Ok {
            lemma_value_fault(b, m);
        }
        assert(value_faults(b, m, e));
        assert(holds_text(b, p, s, m));
    }
}

proof fn lemma_entries_fault(b: Seq<u8>, n: nat)
    requires
        24 <= b.len() <= u64::MAX,
        n <= long(b, 16),
        get_entries(b, 24, n) is Err,
    ensures
        exists|cuts: Seq<int>, v: Seq<(Seq<char>, MetaView)>| #[trigger]
            entries_fault(b, cuts, v, get_entries(b, 24, n)->Err_0),
    decreases n,
{
    let k = (n - 1) as nat;
    if get_entries(b, 24, k) is Err {
        lemma_entries_fault(b, k);
    } else {
        let cuts = lemma_entries(b, 24, k);
        lemma_entry_fault(b, cuts.last());
        let v = get_entries(b, 24, k)->Ok_0.0;
        assert(entries_fault(b, cuts, v, get_entries(b, 24, n)->Err_0));
    }
}

proof fn lemma_tensor_fault(b: Seq<u8>, p: int)
    requires
        0 <= p,
        b.len() <= u64::MAX,
        get_tensor(b, p) is Err,
    ensures
        tensor_faults(b, p, get_tensor(b, p)->Err_0),
{
    let e = get_tensor(b, p)->Err_0;
    if get_string(b, p) is Err {
        lemma_text_fault(b, p);
    } else {
        lemma_text(b, p);
        let (s, m) = get_string(b, p)->Ok_0;
        lemma_words(b, m);
        if get_u32(b, m) is Ok {
            let n = le_u32(b, m) as nat;
            if get_u64s(b, m + 4, n) is Err {
                lemma_longs_fault(b, m + 4, n);
            } else {
                lemma_longs(b, m + 4, n);
                lemma_longs_end(b, m + 4, n);
                let q = m + 4 + 8 * n;
                lemma_words(b, q);
                lemma_words(b, q + 4);
                lemma_tag(le_u32(b, q));
                assert(get_placement(b, q) is Err);
            }
        }
        assert(shape_faults(b, m, e));
        assert(holds_text(b, p, s, m));
    }
}

proof fn lemma_tensors_fault(b: Seq<u8>, cuts: Seq<int>, v: Seq<(Seq<char>, MetaView)>, n: nat)
    requires
        24 <= b.len() <= u64::MAX,
        holds_entries(b, cuts, v),
        cuts[0] == 24,
        v.len() == long(b, 16),
        0 <= cuts.last() <= b.len(),
        n <= long(b, 8),
        get_tensors(b, cuts.last(), n) is Err,
    ensures
        exists|marks: Seq<int>, t: Seq<TensorView>| #[trigger]
            index_faults(b, cuts, v, marks, t, get_tensors(b, cuts.last(), n)->Err_0),
    decreases n,
{
    let k = (n - 1) as nat;
    let p = cuts.last();
    if get_tensors(b, p, k) is Err {
        lemma_tensors_fault(b, cuts, v, k);
    } else {
        let marks = lemma_tensors(b, p, k);
        lemma_tensor_fault(b, marks.last());
        let t = get_tensors(b, p, k)->Ok_0.0;
        assert(index_faults(b, cuts, v, marks, t, get_tensors(b, p, n)->Err_0));
    }
}

proof fn lemma_header_fault(b: Seq<u8>)
    requires
        b.len() <= u64::MAX,
    ensures
        get_header(b) is Err ==> header_faults(b, get_header(b)->Err_0),
        get_header(b) is Ok ==> b.len() >= 24 && get_header(b)->Ok_0 == (
            (le_u64(b, 8), le_u64(b, 16)),
            24int,
        ),
{
    lemma_words(b, 4);
    if b.len() >= 4 {
        let first = b.subrange(0, 4);
        assert(first[0] == b[0] && first[1] == b[1] && first[2] == b[2] && first[3] == b[3]);
        if b[0] == 0x47 && b[1] == 0x47 && b[2] == 0x55 && b[3] == 0x46 {
            assert(first =~= magic());
        } else {
            assert(first != magic());
        }
    }
}

/// A file that is not read has a fault, and the error is that of the first: of its
/// start, of an entry, of a tensor, or of the data that are not there.
pub proof fn first_fault_of_a_file_is_said(bytes: Vec<u8>, e: GgufError)
    requires
        bytes@.len() <= u64::MAX,
        call_ensures(GgufFile::from_bytes, (bytes,), Err(e)),
    ensures
        ({
            ||| header_faults(bytes@, e)
            ||| exists|cuts: Seq<int>, v: Seq<(Seq<char>, MetaView)>| #[trigger]
                entries_fault(bytes@, cuts, v, e)
            ||| exists|
                cuts: Seq<int>,
                v: Seq<(Seq<char>, MetaView)>,
                marks: Seq<int>,
                t: Seq<TensorView>,
            | #[trigger]
                index_faults(bytes@, cuts, v, marks, t, e)
        }),
{
    let b = bytes@;
    lemma_header_fault(b);
    if get_header(b) is Ok {
        lemma_words(b, 8);
        lemma_words(b, 16);
        lemma_body_fault(b, e);
    }
}

proof fn lemma_body_fault(b: Seq<u8>, e: GgufError)
    requires
        24 <= b.len() <= u64::MAX,
        get_body(b, 24, long(b, 8) as nat, long(b, 16) as nat) == Err::<Content, GgufError>(e),
        0 <= long(b, 8),
        0 <= long(b, 16),
    ensures
        ({
            ||| exists|cuts: Seq<int>, v: Seq<(Seq<char>, MetaView)>| #[trigger]
                entries_fault(b, cuts, v, e)
            ||| exists|
                cuts: Seq<int>,
                v: Seq<(Seq<char>, MetaView)>,
                marks: Seq<int>,
                t: Seq<TensorView>,
            | #[trigger]
                index_faults(b, cuts, v, marks, t, e)
        }),
{
    let (nt, ne) = (long(b, 8) as nat, long(b, 16) as nat);
    if get_entries(b, 24, ne) is Err {
        lemma_entries_fault(b, ne);
    } else {
        let cuts = lemma_entries(b, 24, ne);
        let v = get_entries(b, 24, ne)->Ok_0.0;
        if get_tensors(b, cuts.last(), nt) is Err {
            lemma_tensors_fault(b, cuts, v, nt);
        } else {
            let marks = lemma_tensors(b, cuts.last(), nt);
            let t = get_tensors(b, cuts.last(), nt)->Ok_0.0;
            let q = aligned(marks.last());
            assert(q % 32 == 0 && marks.last() <= q < marks.last() + 32);
            assert(is_behind(b, q));
            assert(index_faults(b, cuts, v, marks, t, e));
        }
    }
}

} // verus!
