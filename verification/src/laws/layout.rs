//! The layout of a file: which bytes hold what.

use vstd::prelude::*;
use vstd::utf8::{
    decode_utf8_encode_utf8, encode_utf8, encode_utf8_decode_utf8, encode_utf8_valid_utf8,
};

use crate::bits::{as_signed, le_u32, le_u64};
use crate::gguf::dtype::GgmlType;
use crate::gguf::format::{
    aligned, get_array, get_body, get_entries, get_entry, get_file, get_header, get_placement,
    get_string, get_strings, get_tensor, get_tensors, get_u32, get_u32s, get_u64s, get_value, magic,
    type_of_tag, Content, MetaView, TensorView,
};
use crate::gguf::{GgufError, GgufFile};

verus! {

/// The number that four bytes hold, the lowest first.
pub open spec fn word(b: Seq<u8>, p: int) -> int {
    b[p] + 0x100 * b[p + 1] + 0x1_0000 * b[p + 2] + 0x100_0000 * b[p + 3]
}

/// The number that eight bytes hold, the lowest first.
pub open spec fn long(b: Seq<u8>, p: int) -> int {
    word(b, p) + 0x1_0000_0000 * word(b, p + 4)
}

/// Whether a text stands from `p` to before `q`: the number of its bytes, in eight
/// bytes, and its bytes.
pub open spec fn holds_text(b: Seq<u8>, p: int, s: Seq<char>, q: int) -> bool {
    &&& p + 8 <= q <= b.len()
    &&& long(b, p) == q - (p + 8)
    &&& b.subrange(p + 8, q) == encode_utf8(s)
}

/// Whether texts stand one behind the other, text `i` from `cuts[i]` on.
pub open spec fn holds_texts(b: Seq<u8>, cuts: Seq<int>, v: Seq<Seq<char>>) -> bool {
    &&& cuts.len() == v.len() + 1
    &&& forall|i: int| 0 <= i < v.len() ==> holds_text(b, cuts[i], #[trigger] v[i], cuts[i + 1])
}

/// Whether texts stand from `p` to before `q`.
pub open spec fn texts_stand(b: Seq<u8>, p: int, v: Seq<Seq<char>>, q: int) -> bool {
    exists|cuts: Seq<int>| #[trigger] holds_texts(b, cuts, v) && cuts[0] == p && cuts.last() == q
}

/// Whether 32-bit numbers stand from `p` to before `q`.
pub open spec fn words_stand(b: Seq<u8>, p: int, v: Seq<u32>, q: int) -> bool {
    &&& q == p + 4 * v.len() <= b.len()
    &&& forall|i: int| 0 <= i < v.len() ==> word(b, p + 4 * i) == #[trigger] v[i]
}

/// Whether a value stands from `p` to before `q`, its type tag first: 4 an unsigned
/// number, 6 a single-precision one, 7 a truth value, 8 a text, 9 an array, whose
/// element type tag (5 is a signed number) and length come before its elements.
pub open spec fn holds_value(b: Seq<u8>, p: int, v: MetaView, q: int) -> bool {
    &&& p + 4 <= q <= b.len()
    &&& match v {
        MetaView::U32(x) => word(b, p) == 4 && q == p + 8 && word(b, p + 4) == x,
        MetaView::F32(x) => word(b, p) == 6 && q == p + 8 && word(b, p + 4) == x,
        MetaView::Bool(x) => word(b, p) == 7 && q == p + 5 && (x <==> b[p + 4] != 0),
        MetaView::Str(s) => word(b, p) == 8 && holds_text(b, p + 4, s, q),
        MetaView::ArrStr(s) => {
            &&& word(b, p) == 9
            &&& word(b, p + 4) == 8
            &&& p + 16 <= b.len()
            &&& long(b, p + 8) == s.len()
            &&& texts_stand(b, p + 16, s, q)
        },
        MetaView::ArrI32(x) => {
            &&& word(b, p) == 9
            &&& word(b, p + 4) == 5
            &&& q == p + 16 + 4 * x.len()
            &&& long(b, p + 8) == x.len()
            &&& forall|i: int|
                0 <= i < x.len() ==> word(b, p + 16 + 4 * i) == (if #[trigger] x[i] < 0 {
                    x[i] + 0x1_0000_0000
                } else {
                    x[i] as int
                })
        },
        MetaView::ArrF32(x) => {
            &&& word(b, p) == 9
            &&& word(b, p + 4) == 6
            &&& p + 16 <= b.len()
            &&& long(b, p + 8) == x.len()
            &&& words_stand(b, p + 16, x, q)
        },
    }
}

/// Whether an entry stands from `p` to before `q`: its key, then its value.
pub open spec fn holds_entry(b: Seq<u8>, p: int, e: (Seq<char>, MetaView), q: int) -> bool {
    exists|m: int| #[trigger] holds_text(b, p, e.0, m) && holds_value(b, m, e.1, q)
}

/// Whether entries stand one behind the other.
pub open spec fn holds_entries(
    b: Seq<u8>,
    cuts: Seq<int>,
    v: Seq<(Seq<char>, MetaView)>,
) -> bool {
    &&& cuts.len() == v.len() + 1
    &&& forall|i: int| 0 <= i < v.len() ==> holds_entry(b, cuts[i], #[trigger] v[i], cuts[i + 1])
}

/// Whether an entry of the tensor index stands from `p` to before `q`: the name,
/// the number of dims, the dims, the type tag, and the place in the data.
pub open spec fn holds_tensor(b: Seq<u8>, p: int, t: TensorView, q: int) -> bool {
    exists|m: int| #[trigger] holds_text(b, p, t.name, m) && holds_shape(b, m, t, q)
}

/// What follows the name of a tensor.
pub open spec fn holds_shape(b: Seq<u8>, m: int, t: TensorView, q: int) -> bool {
    let n = t.dims.len() as int;
    &&& q == m + 16 + 8 * n <= b.len()
    &&& word(b, m) == n
    &&& forall|i: int| 0 <= i < n ==> long(b, m + 4 + 8 * i) == #[trigger] t.dims[i]
    &&& word(b, m + 4 + 8 * n) == (match t.dtype {
        GgmlType::F32 => 0int,
        GgmlType::Q4_0 => 2,
        GgmlType::Q8_0 => 8,
        GgmlType::Q6K => 14,
    })
    &&& long(b, m + 8 + 8 * n) == t.offset
}

/// Whether entries of the tensor index stand one behind the other.
pub open spec fn holds_tensors(b: Seq<u8>, cuts: Seq<int>, v: Seq<TensorView>) -> bool {
    &&& cuts.len() == v.len() + 1
    &&& forall|i: int| 0 <= i < v.len() ==> holds_tensor(b, cuts[i], #[trigger] v[i], cuts[i + 1])
}

/// Whether a file holds a content: `GGUF`, version 3, the number of tensors and
/// that of entries, the entries, the tensor index, and the data, which start at
/// the next multiple of 32.
pub open spec fn holds(b: Seq<u8>, c: Content, e: Seq<int>, t: Seq<int>) -> bool {
    &&& 24 <= b.len()
    &&& b[0] == 0x47 && b[1] == 0x47 && b[2] == 0x55 && b[3] == 0x46
    &&& word(b, 4) == 3
    &&& long(b, 8) == c.tensors.len()
    &&& long(b, 16) == c.entries.len()
    &&& holds_entries(b, e, c.entries)
    &&& e[0] == 24
    &&& holds_tensors(b, t, c.tensors)
    &&& t[0] == e.last()
    &&& c.data_start % 32 == 0
    &&& t.last() <= c.data_start < t.last() + 32
    &&& c.data_start <= b.len()
}

pub(crate) proof fn lemma_words(b: Seq<u8>, p: int)
    ensures
        le_u32(b, p) == word(b, p),
        le_u64(b, p) == long(b, p),
{
}

pub(crate) proof fn lemma_text(b: Seq<u8>, p: int)
    requires
        0 <= p,
        get_string(b, p) is Ok,
    ensures
        holds_text(b, p, get_string(b, p)->Ok_0.0, get_string(b, p)->Ok_0.1),
{
    lemma_words(b, p);
    let q = get_string(b, p)->Ok_0.1;
    decode_utf8_encode_utf8(b.subrange(p + 8, q));
}

proof fn lemma_text_read(b: Seq<u8>, p: int, s: Seq<char>, q: int)
    requires
        0 <= p,
        b.len() <= u64::MAX,
        holds_text(b, p, s, q),
    ensures
        get_string(b, p) == Ok::<(Seq<char>, int), GgufError>((s, q)),
{
    lemma_words(b, p);
    encode_utf8_valid_utf8(s);
    encode_utf8_decode_utf8(s);
}

pub(crate) proof fn lemma_texts(b: Seq<u8>, p: int, n: nat) -> (cuts: Seq<int>)
    requires
        0 <= p,
        get_strings(b, p, n) is Ok,
    ensures
        get_strings(b, p, n)->Ok_0.0.len() == n,
        holds_texts(b, cuts, get_strings(b, p, n)->Ok_0.0),
        cuts[0] == p,
        cuts.last() == get_strings(b, p, n)->Ok_0.1,
        p <= cuts.last(),
    decreases n,
{
    if n == 0 {
        seq![p]
    } else {
        let cuts = lemma_texts(b, p, (n - 1) as nat);
        let (init, r) = get_strings(b, p, (n - 1) as nat)->Ok_0;
        lemma_text(b, r);
        let (v, q) = get_strings(b, p, n)->Ok_0;
        let more = cuts.push(q);
        assert forall|i: int| 0 <= i < v.len() implies holds_text(
            b,
            more[i],
            #[trigger] v[i],
            more[i + 1],
        ) by {
            if i < n - 1 {
                assert(v[i] == init[i]);
            }
        }
        more
    }
}

proof fn lemma_texts_read(b: Seq<u8>, cuts: Seq<int>, v: Seq<Seq<char>>)
    requires
        b.len() <= u64::MAX,
        holds_texts(b, cuts, v),
        0 <= cuts[0],
    ensures
        get_strings(b, cuts[0], v.len()) == Ok::<(Seq<Seq<char>>, int), GgufError>(
            (v, cuts.last()),
        ),
        cuts[0] <= cuts.last(),
    decreases v.len(),
{
    if v.len() > 0 {
        let (init, some) = (v.drop_last(), cuts.drop_last());
        assert forall|i: int| 0 <= i < init.len() implies holds_text(
            b,
            some[i],
            #[trigger] init[i],
            some[i + 1],
        ) by {
            assert(init[i] == v[i]);
        }
        lemma_texts_read(b, some, init);
        let n = v.len() - 1;
        assert(holds_text(b, cuts[n], v[n], cuts[n + 1]));
        lemma_text_read(b, cuts[n], v[n], cuts[n + 1]);
        assert(init.push(v[n]) =~= v);
    } else {
        assert(v =~= seq![]);
    }
}

pub(crate) proof fn lemma_numbers(b: Seq<u8>, p: int, n: nat)
    requires
        0 <= p,
        get_u32s(b, p, n) is Ok,
    ensures
        get_u32s(b, p, n)->Ok_0.0.len() == n,
        words_stand(b, p, get_u32s(b, p, n)->Ok_0.0, get_u32s(b, p, n)->Ok_0.1) || n == 0,
        get_u32s(b, p, n)->Ok_0.1 == p + 4 * n,
    decreases n,
{
    if n > 0 {
        lemma_numbers(b, p, (n - 1) as nat);
        let (init, r) = get_u32s(b, p, (n - 1) as nat)->Ok_0;
        lemma_words(b, r);
        let v = get_u32s(b, p, n)->Ok_0.0;
        assert forall|i: int| 0 <= i < v.len() implies word(b, p + 4 * i) == #[trigger] v[i] by {
            if i < n - 1 {
                assert(v[i] == init[i]);
            }
        }
    }
}

proof fn lemma_numbers_read(b: Seq<u8>, p: int, v: Seq<u32>)
    requires
        0 <= p,
        b.len() <= u64::MAX,
        p + 4 * v.len() <= b.len(),
        forall|i: int| 0 <= i < v.len() ==> word(b, p + 4 * i) == #[trigger] v[i],
    ensures
        get_u32s(b, p, v.len()) == Ok::<(Seq<u32>, int), GgufError>((v, p + 4 * v.len())),
    decreases v.len(),
{
    if v.len() > 0 {
        let init = v.drop_last();
        assert forall|i: int| 0 <= i < init.len() implies word(b, p + 4 * i)
            == #[trigger] init[i] by {
            assert(init[i] == v[i]);
        }
        lemma_numbers_read(b, p, init);
        let n = v.len() - 1;
        lemma_words(b, p + 4 * n);
        assert(word(b, p + 4 * n) == v[n]);
        assert(init.push(v[n]) =~= v);
    } else {
        assert(v =~= seq![]);
    }
}

pub(crate) proof fn lemma_longs(b: Seq<u8>, p: int, n: nat)
    requires
        0 <= p,
        get_u64s(b, p, n) is Ok,
    ensures
        get_u64s(b, p, n)->Ok_0.0.len() == n,
        get_u64s(b, p, n)->Ok_0.1 == p + 8 * n,
        forall|i: int|
            0 <= i < n ==> long(b, p + 8 * i) == #[trigger] get_u64s(b, p, n)->Ok_0.0[i],
    decreases n,
{
    if n > 0 {
        lemma_longs(b, p, (n - 1) as nat);
        let (init, r) = get_u64s(b, p, (n - 1) as nat)->Ok_0;
        lemma_words(b, r);
        let v = get_u64s(b, p, n)->Ok_0.0;
        assert forall|i: int| 0 <= i < n implies long(b, p + 8 * i) == #[trigger] v[i] by {
            if i < n - 1 {
                assert(v[i] == init[i]);
            }
        }
    }
}

proof fn lemma_longs_read(b: Seq<u8>, p: int, v: Seq<u64>)
    requires
        0 <= p,
        b.len() <= u64::MAX,
        p + 8 * v.len() <= b.len(),
        forall|i: int| 0 <= i < v.len() ==> long(b, p + 8 * i) == #[trigger] v[i],
    ensures
        get_u64s(b, p, v.len()) == Ok::<(Seq<u64>, int), GgufError>((v, p + 8 * v.len())),
    decreases v.len(),
{
    if v.len() > 0 {
        let init = v.drop_last();
        assert forall|i: int| 0 <= i < init.len() implies long(b, p + 8 * i)
            == #[trigger] init[i] by {
            assert(init[i] == v[i]);
        }
        lemma_longs_read(b, p, init);
        let n = v.len() - 1;
        lemma_words(b, p + 8 * n);
        assert(long(b, p + 8 * n) == v[n]);
        assert(init.push(v[n]) =~= v);
    } else {
        assert(v =~= seq![]);
    }
}

proof fn lemma_array(b: Seq<u8>, p: int, inner: u32, n: nat)
    requires
        0 <= p,
        p + 16 <= b.len(),
        word(b, p) == 9,
        word(b, p + 4) == inner,
        long(b, p + 8) == n,
        get_array(b, p + 16, inner, n) is Ok,
    ensures
        holds_value(
            b,
            p,
            get_array(b, p + 16, inner, n)->Ok_0.0,
            get_array(b, p + 16, inner, n)->Ok_0.1,
        ),
{
    let (v, q) = get_array(b, p + 16, inner, n)->Ok_0;
    if inner == 8 {
        let cuts = lemma_texts(b, p + 16, n);
        lemma_cuts_end(b, cuts, get_strings(b, p + 16, n)->Ok_0.0);
    } else {
        lemma_numbers(b, p + 16, n);
        let u = get_u32s(b, p + 16, n)->Ok_0.0;
        if inner == 5 {
            let x = v->ArrI32_0;
            assert forall|i: int| 0 <= i < x.len() implies word(b, p + 16 + 4 * i) == (
            if #[trigger] x[i] < 0 {
                x[i] + 0x1_0000_0000
            } else {
                x[i] as int
            }) by {
                assert(x[i] == as_signed(u[i]));
            }
        }
    }
}

proof fn lemma_cuts_end(b: Seq<u8>, cuts: Seq<int>, v: Seq<Seq<char>>)
    requires
        holds_texts(b, cuts, v),
        cuts[0] <= b.len(),
    ensures
        cuts.last() <= b.len(),
{
    if v.len() > 0 {
        let n = v.len() - 1;
        assert(holds_text(b, cuts[n], v[n], cuts[n + 1]));
    }
}

proof fn lemma_value(b: Seq<u8>, p: int, tag: u32)
    requires
        0 <= p,
        p + 4 <= b.len(),
        word(b, p) == tag,
        get_value(b, p + 4, tag) is Ok,
    ensures
        holds_value(b, p, get_value(b, p + 4, tag)->Ok_0.0, get_value(b, p + 4, tag)->Ok_0.1),
{
    lemma_words(b, p + 4);
    lemma_words(b, p + 8);
    if tag == 8 {
        lemma_text(b, p + 4);
    } else if tag == 9 {
        lemma_array(b, p, le_u32(b, p + 4), le_u64(b, p + 8) as nat);
    }
}

proof fn lemma_value_read(b: Seq<u8>, p: int, v: MetaView, q: int)
    requires
        0 <= p,
        b.len() <= u64::MAX,
        holds_value(b, p, v, q),
    ensures
        get_u32(b, p) is Ok,
        get_value(b, p + 4, get_u32(b, p)->Ok_0.0) == Ok::<(MetaView, int), GgufError>((v, q)),
        get_u32(b, p)->Ok_0.1 == p + 4,
{
    lemma_words(b, p);
    lemma_words(b, p + 4);
    lemma_words(b, p + 8);
    match v {
        MetaView::Str(s) => {
            lemma_text_read(b, p + 4, s, q);
        },
        MetaView::ArrStr(s) => {
            let cuts = choose|cuts: Seq<int>| #[trigger]
                holds_texts(b, cuts, s) && cuts[0] == p + 16 && cuts.last() == q;
            lemma_texts_read(b, cuts, s);
        },
        MetaView::ArrI32(x) => {
            let u = Seq::new(
                x.len(),
                |i: int|
                    if x[i] < 0 {
                        (x[i] + 0x1_0000_0000) as u32
                    } else {
                        x[i] as u32
                    },
            );
            assert forall|i: int| 0 <= i < u.len() implies word(b, p + 16 + 4 * i)
                == #[trigger] u[i] by {
                assert(x[i] == x[i]);
            }
            lemma_numbers_read(b, p + 16, u);
            assert(u.map_values(|w: u32| as_signed(w)) =~= x);
        },
        MetaView::ArrF32(x) => {
            lemma_numbers_read(b, p + 16, x);
        },
        _ => {},
    }
}

proof fn lemma_entry(b: Seq<u8>, p: int)
    requires
        0 <= p,
        get_entry(b, p) is Ok,
    ensures
        holds_entry(b, p, get_entry(b, p)->Ok_0.0, get_entry(b, p)->Ok_0.1),
        p <= get_entry(b, p)->Ok_0.1 <= b.len(),
{
    lemma_text(b, p);
    let q = get_string(b, p)->Ok_0.1;
    lemma_words(b, q);
    lemma_value(b, q, le_u32(b, q));
    let (e, end) = get_entry(b, p)->Ok_0;
    assert(holds_text(b, p, e.0, q));
    assert(holds_value(b, q, e.1, end));
}

proof fn lemma_entry_read(b: Seq<u8>, p: int, e: (Seq<char>, MetaView), q: int)
    requires
        0 <= p,
        b.len() <= u64::MAX,
        holds_entry(b, p, e, q),
    ensures
        get_entry(b, p) == Ok::<((Seq<char>, MetaView), int), GgufError>((e, q)),
        p <= q,
{
    let m = choose|m: int| #[trigger] holds_text(b, p, e.0, m) && holds_value(b, m, e.1, q);
    lemma_text_read(b, p, e.0, m);
    lemma_value_read(b, m, e.1, q);
}

pub(crate) proof fn lemma_entries(b: Seq<u8>, p: int, n: nat) -> (cuts: Seq<int>)
    requires
        0 <= p <= b.len(),
        get_entries(b, p, n) is Ok,
    ensures
        get_entries(b, p, n)->Ok_0.0.len() == n,
        holds_entries(b, cuts, get_entries(b, p, n)->Ok_0.0),
        cuts[0] == p,
        cuts.last() == get_entries(b, p, n)->Ok_0.1,
        p <= cuts.last() <= b.len(),
    decreases n,
{
    if n == 0 {
        seq![p]
    } else {
        let cuts = lemma_entries(b, p, (n - 1) as nat);
        let (init, r) = get_entries(b, p, (n - 1) as nat)->Ok_0;
        lemma_entry(b, r);
        let (v, q) = get_entries(b, p, n)->Ok_0;
        let more = cuts.push(q);
        assert forall|i: int| 0 <= i < v.len() implies holds_entry(
            b,
            more[i],
            #[trigger] v[i],
            more[i + 1],
        ) by {
            if i < n - 1 {
                assert(v[i] == init[i]);
            }
        }
        more
    }
}

proof fn lemma_entries_read(b: Seq<u8>, cuts: Seq<int>, v: Seq<(Seq<char>, MetaView)>)
    requires
        b.len() <= u64::MAX,
        holds_entries(b, cuts, v),
        0 <= cuts[0],
    ensures
        get_entries(b, cuts[0], v.len()) == Ok::<
            (Seq<(Seq<char>, MetaView)>, int),
            GgufError,
        >((v, cuts.last())),
        cuts[0] <= cuts.last(),
    decreases v.len(),
{
    if v.len() > 0 {
        let (init, some) = (v.drop_last(), cuts.drop_last());
        assert forall|i: int| 0 <= i < init.len() implies holds_entry(
            b,
            some[i],
            #[trigger] init[i],
            some[i + 1],
        ) by {
            assert(init[i] == v[i]);
        }
        lemma_entries_read(b, some, init);
        let n = v.len() - 1;
        assert(holds_entry(b, cuts[n], v[n], cuts[n + 1]));
        lemma_entry_read(b, cuts[n], v[n], cuts[n + 1]);
        assert(init.push(v[n]) =~= v);
    } else {
        assert(v =~= seq![]);
    }
}

pub(crate) proof fn lemma_tag(tag: u32)
    ensures
        type_of_tag(tag) == Some(GgmlType::F32) <==> tag == 0,
        type_of_tag(tag) == Some(GgmlType::Q4_0) <==> tag == 2,
        type_of_tag(tag) == Some(GgmlType::Q8_0) <==> tag == 8,
        type_of_tag(tag) == Some(GgmlType::Q6K) <==> tag == 14,
{
    assert(GgmlType::F32.tag() == 0 && GgmlType::Q4_0.tag() == 2);
    assert(GgmlType::Q8_0.tag() == 8 && GgmlType::Q6K.tag() == 14);
}

proof fn lemma_tensor(b: Seq<u8>, p: int)
    requires
        0 <= p,
        get_tensor(b, p) is Ok,
    ensures
        holds_tensor(b, p, get_tensor(b, p)->Ok_0.0, get_tensor(b, p)->Ok_0.1),
        p <= get_tensor(b, p)->Ok_0.1 <= b.len(),
{
    lemma_text(b, p);
    let m = get_string(b, p)->Ok_0.1;
    lemma_words(b, m);
    let n = le_u32(b, m) as nat;
    lemma_longs(b, m + 4, n);
    let s = m + 4 + 8 * n;
    lemma_words(b, s);
    lemma_words(b, s + 4);
    lemma_tag(le_u32(b, s));
    let (t, q) = get_tensor(b, p)->Ok_0;
    assert(get_placement(b, s) is Ok);
    assert forall|i: int| 0 <= i < n implies long(b, m + 4 + 8 * i) == #[trigger] t.dims[i] by {
        assert(t.dims[i] == get_u64s(b, m + 4, n)->Ok_0.0[i]);
    }
    assert(holds_shape(b, m, t, q));
    assert(holds_text(b, p, t.name, m));
}

proof fn lemma_tensor_read(b: Seq<u8>, p: int, t: TensorView, q: int)
    requires
        0 <= p,
        b.len() <= u64::MAX,
        holds_tensor(b, p, t, q),
    ensures
        get_tensor(b, p) == Ok::<(TensorView, int), GgufError>((t, q)),
        p <= q,
{
    let m = choose|m: int| #[trigger] holds_text(b, p, t.name, m) && holds_shape(b, m, t, q);
    lemma_text_read(b, p, t.name, m);
    lemma_words(b, m);
    let n = t.dims.len() as int;
    lemma_longs_read(b, m + 4, t.dims);
    lemma_words(b, m + 4 + 8 * n);
    lemma_words(b, m + 8 + 8 * n);
    lemma_tag(le_u32(b, m + 4 + 8 * n));
}

pub(crate) proof fn lemma_tensors(b: Seq<u8>, p: int, n: nat) -> (cuts: Seq<int>)
    requires
        0 <= p <= b.len(),
        get_tensors(b, p, n) is Ok,
    ensures
        get_tensors(b, p, n)->Ok_0.0.len() == n,
        holds_tensors(b, cuts, get_tensors(b, p, n)->Ok_0.0),
        cuts[0] == p,
        cuts.last() == get_tensors(b, p, n)->Ok_0.1,
        p <= cuts.last() <= b.len(),
    decreases n,
{
    if n == 0 {
        seq![p]
    } else {
        let cuts = lemma_tensors(b, p, (n - 1) as nat);
        let (init, r) = get_tensors(b, p, (n - 1) as nat)->Ok_0;
        lemma_tensor(b, r);
        let (v, q) = get_tensors(b, p, n)->Ok_0;
        let more = cuts.push(q);
        assert forall|i: int| 0 <= i < v.len() implies holds_tensor(
            b,
            more[i],
            #[trigger] v[i],
            more[i + 1],
        ) by {
            if i < n - 1 {
                assert(v[i] == init[i]);
            }
        }
        more
    }
}

proof fn lemma_tensors_read(b: Seq<u8>, cuts: Seq<int>, v: Seq<TensorView>)
    requires
        b.len() <= u64::MAX,
        holds_tensors(b, cuts, v),
        0 <= cuts[0],
    ensures
        get_tensors(b, cuts[0], v.len()) == Ok::<(Seq<TensorView>, int), GgufError>(
            (v, cuts.last()),
        ),
        cuts[0] <= cuts.last(),
    decreases v.len(),
{
    if v.len() > 0 {
        let (init, some) = (v.drop_last(), cuts.drop_last());
        assert forall|i: int| 0 <= i < init.len() implies holds_tensor(
            b,
            some[i],
            #[trigger] init[i],
            some[i + 1],
        ) by {
            assert(init[i] == v[i]);
        }
        lemma_tensors_read(b, some, init);
        let n = v.len() - 1;
        assert(holds_tensor(b, cuts[n], v[n], cuts[n + 1]));
        lemma_tensor_read(b, cuts[n], v[n], cuts[n + 1]);
        assert(init.push(v[n]) =~= v);
    } else {
        assert(v =~= seq![]);
    }
}

/// What is read from bytes is what they hold, each number and each text where the
/// layout has it.
pub proof fn read_is_what_the_bytes_hold(bytes: Vec<u8>, g: GgufFile<'static>)
    requires
        call_ensures(GgufFile::from_bytes, (bytes,), Ok(g)),
    ensures
        g.bytes() == bytes@,
        exists|e: Seq<int>, t: Seq<int>| #[trigger] holds(bytes@, g.content(), e, t),
{
    let b = bytes@;
    let c = g.content();
    lemma_words(b, 4);
    lemma_words(b, 8);
    lemma_words(b, 16);
    assert(b.subrange(0, 4) == magic());
    assert(b.subrange(0, 4)[0] == b[0] && b.subrange(0, 4)[1] == b[1]);
    assert(b.subrange(0, 4)[2] == b[2] && b.subrange(0, 4)[3] == b[3]);
    let e = lemma_entries(b, 24, le_u64(b, 16) as nat);
    let t = lemma_tensors(b, e.last(), le_u64(b, 8) as nat);
    assert(holds(b, c, e, t));
}

/// Bytes that hold a content are read, and as that content.
pub proof fn what_the_bytes_hold_is_read(
    bytes: Vec<u8>,
    r: Result<GgufFile<'static>, GgufError>,
    c: Content,
    e: Seq<int>,
    t: Seq<int>,
)
    requires
        bytes@.len() <= u64::MAX,
        call_ensures(GgufFile::from_bytes, (bytes,), r),
        holds(bytes@, c, e, t),
    ensures
        r is Ok,
        r->Ok_0.content() == c,
        r->Ok_0.bytes() == bytes@,
{
    let b = bytes@;
    lemma_header_read(b);
    lemma_aligned(t.last(), c.data_start);
    lemma_body_read(b, c, e, t);
    assert(get_file(b) == Ok::<Content, GgufError>(c));
}

proof fn lemma_header_read(b: Seq<u8>)
    requires
        24 <= b.len() <= u64::MAX,
        b[0] == 0x47 && b[1] == 0x47 && b[2] == 0x55 && b[3] == 0x46,
        word(b, 4) == 3,
    ensures
        get_header(b) is Ok,
        get_header(b)->Ok_0.0.0 == long(b, 8),
        get_header(b)->Ok_0.0.1 == long(b, 16),
        get_header(b)->Ok_0.1 == 24,
{
    lemma_words(b, 4);
    lemma_words(b, 8);
    lemma_words(b, 16);
    assert(b.subrange(0, 4) =~= magic());
}

proof fn lemma_aligned(p: int, q: int)
    requires
        q % 32 == 0,
        p <= q < p + 32,
    ensures
        aligned(p) == q,
{
}

proof fn lemma_body_read(b: Seq<u8>, c: Content, e: Seq<int>, t: Seq<int>)
    requires
        b.len() <= u64::MAX,
        holds_entries(b, e, c.entries),
        e[0] == 24,
        holds_tensors(b, t, c.tensors),
        t[0] == e.last(),
        aligned(t.last()) == c.data_start,
        c.data_start <= b.len(),
    ensures
        get_body(b, 24, c.tensors.len(), c.entries.len()) == Ok::<Content, GgufError>(c),
{
    lemma_entries_read(b, e, c.entries);
    lemma_tensors_read(b, t, c.tensors);
    assert(get_entries(b, 24, c.entries.len()) is Ok);
    assert(get_tensors(b, e.last(), c.tensors.len()) is Ok);
}

/// A file is read alike from bytes that are handed over and from bytes that stay
/// where they are.
pub proof fn slices_are_read_alike<'a>(
    bytes: Vec<u8>,
    slice: &'a [u8],
    r: Result<GgufFile<'static>, GgufError>,
    s: Result<GgufFile<'a>, GgufError>,
)
    requires
        bytes@ == slice@,
        call_ensures(GgufFile::from_bytes, (bytes,), r),
        call_ensures(GgufFile::<'a>::from_slice, (slice,), s),
    ensures
        r is Ok <==> s is Ok,
        r is Ok ==> r->Ok_0.content() == s->Ok_0.content() && r->Ok_0.bytes() == s->Ok_0.bytes(),
        r is Err ==> r->Err_0 == s->Err_0,
{
}

/// Bytes that do not start with `GGUF` are refused for it, and so is any version
/// but 3.
pub proof fn other_files_are_refused(bytes: Vec<u8>, r: Result<GgufFile<'static>, GgufError>)
    requires
        call_ensures(GgufFile::from_bytes, (bytes,), r),
        4 <= bytes@.len() <= u64::MAX,
    ensures
        ({
            let b = bytes@;
            let named = b[0] == 0x47 && b[1] == 0x47 && b[2] == 0x55 && b[3] == 0x46;
            &&& !named ==> r is Err && r->Err_0 == GgufError::BadMagic
            &&& named && b.len() >= 8 && word(b, 4) != 3 ==> r is Err && r->Err_0
                == GgufError::UnsupportedVersion(word(b, 4) as u32)
        }),
{
    let b = bytes@;
    lemma_words(b, 4);
    let first = b.subrange(0, 4);
    assert(first[0] == b[0] && first[1] == b[1] && first[2] == b[2] && first[3] == b[3]);
    if b[0] == 0x47 && b[1] == 0x47 && b[2] == 0x55 && b[3] == 0x46 {
        assert(first =~= magic());
    } else {
        assert(first != magic());
    }
}

} // verus!
