//! UTF-8 text: where the characters of a string lie among its bytes, and the
//! few operations of the standard library on strings that the crate relies on.

use vstd::prelude::*;
use vstd::utf8::*;

verus! {

/// `String::push` appends one character to the string.
pub assume_specification[ String::push ](s: &mut String, c: char)
    ensures
        final(s)@ == old(s)@.push(c),
;

/// What `String::from_utf8_lossy` makes of bytes that are not valid UTF-8: a
/// text with replacement characters in place of the invalid sequences.
pub uninterp spec fn replaced_text(bytes: Seq<u8>) -> Seq<char>;

/// The text that `bytes` stand for, with replacement characters where they are
/// not valid UTF-8.
pub open spec fn lossy_text(bytes: Seq<u8>) -> Seq<char> {
    if valid_utf8(bytes) {
        decode_utf8(bytes)
    } else {
        replaced_text(bytes)
    }
}

/// `String::from_utf8_lossy`: on valid UTF-8 the text that the bytes encode; on
/// other bytes a text that is a function of the bytes, left unnamed but for
/// [`replaced_text`].
#[verifier::external_body]
pub(crate) fn text_lossy(bytes: &[u8]) -> (s: String)
    ensures
        valid_utf8(bytes@) ==> s@ == decode_utf8(bytes@),
        !valid_utf8(bytes@) ==> s@ == replaced_text(bytes@),
{
    String::from_utf8_lossy(bytes).into_owned()
}

/// `String::from_utf8`: succeeds on valid UTF-8 only, and then returns the text
/// that the bytes encode.
#[verifier::external_body]
pub(crate) fn text_exact(bytes: Vec<u8>) -> (s: Option<String>)
    ensures
        match s {
            Some(t) => valid_utf8(bytes@) && t@ == decode_utf8(bytes@),
            None => !valid_utf8(bytes@),
        },
{
    String::from_utf8(bytes).ok()
}

/// Byte position of character `k` of `s`.
pub open spec fn byte_pos(s: Seq<char>, k: int) -> int {
    encode_utf8(s.take(k)).len() as int
}

/// The UTF-8 encoding of a concatenation is the concatenation of the encodings.
pub proof fn lemma_encode_concat(a: Seq<char>, b: Seq<char>)
    ensures
        encode_utf8(a + b) == encode_utf8(a) + encode_utf8(b),
    decreases a.len(),
{
    if a.len() == 0 {
        assert(a + b =~= b);
        assert(encode_utf8(a) + encode_utf8(b) =~= encode_utf8(b));
    } else {
        assert((a + b).drop_first() =~= a.drop_first() + b);
        lemma_encode_concat(a.drop_first(), b);
        assert(encode_utf8(a + b) =~= encode_utf8(a) + encode_utf8(b));
    }
}

/// Two texts with the same encoding are the same text.
pub proof fn lemma_encode_injective(a: Seq<char>, b: Seq<char>)
    requires
        encode_utf8(a) == encode_utf8(b),
    ensures
        a == b,
{
    encode_utf8_decode_utf8(a);
    encode_utf8_decode_utf8(b);
}

/// The encoding of `s[i..j]` is the byte range between the two positions.
pub proof fn lemma_byte_range(s: Seq<char>, i: int, j: int)
    requires
        0 <= i <= j <= s.len(),
    ensures
        0 <= byte_pos(s, i) <= byte_pos(s, j) <= encode_utf8(s).len(),
        encode_utf8(s).subrange(byte_pos(s, i), byte_pos(s, j)) == encode_utf8(s.subrange(i, j)),
        byte_pos(s, j) == byte_pos(s, i) + encode_utf8(s.subrange(i, j)).len(),
        byte_pos(s, 0) == 0,
        byte_pos(s, s.len() as int) == encode_utf8(s).len(),
{
    let (a, m, z) = (s.take(i), s.subrange(i, j), s.skip(j));
    assert(s.take(j) =~= a + m);
    assert(s =~= s.take(j) + z);
    lemma_encode_concat(a, m);
    lemma_encode_concat(s.take(j), z);
    assert(encode_utf8(s).subrange(byte_pos(s, i), byte_pos(s, j)) =~= encode_utf8(m));
    assert(s.take(0) =~= Seq::<char>::empty());
    assert(s.take(s.len() as int) =~= s);
}

/// The byte position of every character is a character boundary.
pub proof fn lemma_boundary(s: Seq<char>, k: int)
    requires
        0 <= k <= s.len(),
    ensures
        is_char_boundary(encode_utf8(s), byte_pos(s, k)),
    decreases k,
{
    encode_utf8_valid_utf8(s);
    if k == 0 {
        assert(s.take(0) =~= Seq::<char>::empty());
    } else {
        let rest = s.drop_first();
        encode_utf8_first_scalar(s);
        lemma_boundary(rest, k - 1);
        assert(s.take(k).drop_first() =~= rest.take(k - 1));
        assert(s.take(k)[0] == s[0]);
        lemma_byte_range(s, 0, k);
        assert(pop_first_scalar(encode_utf8(s)) =~= encode_utf8(rest));
    }
}

/// The length of the UTF-8 sequence of one character.
pub open spec fn utf8_width(c: char) -> int {
    encode_scalar(c as u32).len() as int
}

/// What the bytes show at the position of character `k`.
pub proof fn lemma_char_at(s: Seq<char>, k: int)
    requires
        0 <= k < s.len(),
    ensures
        byte_pos(s, k) < encode_utf8(s).len(),
        byte_pos(s, k + 1) == byte_pos(s, k) + utf8_width(s[k]),
        byte_pos(s, k + 1) <= encode_utf8(s).len(),
        1 <= utf8_width(s[k]) <= 4,
        lead_width(encode_utf8(s)[byte_pos(s, k)]) == utf8_width(s[k]),
        (encode_utf8(s)[byte_pos(s, k)] == 0x20) == (s[k] == ' '),
{
    lemma_byte_range(s, k, k + 1);
    lemma_byte_range(s, k + 1, s.len() as int);
    let one = s.subrange(k, k + 1);
    assert(one =~= seq![s[k]]);
    reveal_with_fuel(encode_utf8, 2);
    assert(one.drop_first() =~= Seq::<char>::empty());
    assert(encode_utf8(one) =~= encode_scalar(s[k] as u32));
    let lead = encode_utf8(s)[byte_pos(s, k)];
    assert(lead == encode_utf8(s).subrange(byte_pos(s, k), byte_pos(s, k + 1))[0]);
    lemma_lead(s[k]);
}

/// The number of bytes of a UTF-8 sequence, as its first byte tells it; one for
/// a byte that starts no sequence.
pub open spec fn lead_width(b: u8) -> int {
    if 0xC0 <= b <= 0xDF {
        2
    } else if 0xE0 <= b <= 0xEF {
        3
    } else if 0xF0 <= b <= 0xF7 {
        4
    } else {
        1
    }
}

proof fn lemma_lead(c: char)
    ensures
        lead_width(encode_scalar(c as u32)[0]) == encode_scalar(c as u32).len(),
        (encode_scalar(c as u32)[0] == 0x20) == (c == ' '),
{
    char_is_scalar(c);
    let s = c as u32;
    if has_width_1_encoding(s) {
        assert(s <= 0x7F ==> (s & 0x7F) as u8 == s) by (bit_vector);
    } else if has_width_2_encoding(s) {
        assert(0xC0 <= 0xC0 | ((s >> 6) & 0x1F) as u8 <= 0xDF) by (bit_vector);
    } else if has_width_3_encoding(s) {
        assert(0xE0 <= 0xE0 | ((s >> 12) & 0x0F) as u8 <= 0xEF) by (bit_vector);
    } else {
        assert(0xF0 <= 0xF0 | ((s >> 18) & 0x7) as u8 <= 0xF7) by (bit_vector);
    }
}

/// Length in bytes of the UTF-8 sequence starting with lead byte `b`.
pub fn utf8_len(b: u8) -> (n: usize)
    ensures
        n == lead_width(b),
{
    assert((b >> 5 == 0b110) == (0xC0 <= b <= 0xDF)) by (bit_vector);
    assert((b >> 4 == 0b1110) == (0xE0 <= b <= 0xEF)) by (bit_vector);
    assert((b >> 3 == 0b11110) == (0xF0 <= b <= 0xF7)) by (bit_vector);
    if b < 0x80 {
        1
    } else if b >> 5 == 0b110 {
        2
    } else if b >> 4 == 0b1110 {
        3
    } else if b >> 3 == 0b11110 {
        4
    } else {
        1
    }
}

/// The part of `s` between two byte positions at which its characters `i` and
/// `j` start.
pub(crate) fn slice_str<'a>(
    s: &'a str,
    start: usize,
    end: usize,
    Ghost(i): Ghost<int>,
    Ghost(j): Ghost<int>,
) -> (r: &'a str)
    requires
        0 <= i <= j <= s@.len(),
        start == byte_pos(s@, i),
        end == byte_pos(s@, j),
    ensures
        r@ == s@.subrange(i, j),
{
    proof {
        lemma_byte_range(s@, i, j);
        lemma_byte_range(s@, 0, j);
        lemma_byte_range(s@, 0, i);
        lemma_boundary(s@, j);
    }
    let (head, _) = s.split_at(end);
    proof {
        assert(s@.subrange(0, j) =~= s@.take(j));
        lemma_encode_injective(head@, s@.take(j));
        assert(head@.take(i) =~= s@.take(i));
        lemma_boundary(head@, i);
        lemma_byte_range(head@, i, j);
    }
    let (_, part) = head.split_at(start);
    proof {
        assert(head@.subrange(i, j) =~= s@.subrange(i, j));
        lemma_encode_injective(part@, s@.subrange(i, j));
    }
    part
}

/// The characters of a text, in order.
pub(crate) fn char_list(s: &str) -> (v: Vec<char>)
    ensures
        v@ == s@,
{
    let mut v: Vec<char> = Vec::new();
    for c in iter: s.chars()
        invariant
            iter.seq() == s@,
            v@ == s@.take(iter.index()),
    {
        v.push(c);
    }
    assert(s@.take(s@.len() as int) =~= s@);
    v
}

/// Whether two texts are the same.
pub(crate) fn same_text(a: &str, b: &str) -> (r: bool)
    ensures
        r == (a@ == b@),
{
    let x: &[u8] = a.as_bytes();
    let y: &[u8] = b.as_bytes();
    if x.len() != y.len() {
        return false;
    }
    let mut i: usize = 0;
    while i < x.len()
        invariant
            x@.len() == y@.len(),
            i <= x@.len(),
            x@ == encode_utf8(a@),
            y@ == encode_utf8(b@),
            x@.take(i as int) == y@.take(i as int),
        decreases x@.len() - i,
    {
        if x[i] != y[i] {
            return false;
        }
        assert(x@.take(i + 1) =~= x@.take(i as int).push(x@[i as int]));
        assert(y@.take(i + 1) =~= y@.take(i as int).push(y@[i as int]));
        i += 1;
    }
    proof {
        assert(x@.take(i as int) =~= x@);
        assert(y@.take(i as int) =~= y@);
        lemma_encode_injective(a@, b@);
    }
    true
}

} // verus!
