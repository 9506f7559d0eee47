//! Texts and bytes: the characters that bytes are written as, the tokens that
//! stand for bytes, and what ids decode to.

use vstd::prelude::*;
use vstd::utf8::{decode_utf8, encode_utf8, valid_utf8};

use crate::text::replaced_text;
use crate::tokenizer::alphabet::{
    alphabet_is_reversible, byte_of, byte_of_symbol, bytes_to_unicode, code_of, symbol,
    unprintable_below,
};
use crate::tokenizer::bpe::{token_bytes, Bpe, BpeView};
use crate::tokenizer::bytes::{byte_value, hex_byte, hex_digit, hex_value, parse_byte_token};
use crate::tokenizer::spm::{unmarked, Spm, SpmView};
use crate::tokenizer::words::{pretokenize, words, words_join, words_shape};

verus! {

/// The number of bytes below `b` that get another character.
spec fn moved_below(b: int) -> int {
    if b <= 0x21 {
        b
    } else if b <= 0x7F {
        0x21
    } else if b <= 0xA1 {
        b - 0x5E
    } else if b <= 0xAD {
        0x43
    } else {
        0x44
    }
}

proof fn lemma_moved(b: int)
    requires
        0 <= b <= 0x100,
    ensures
        unprintable_below(b) == moved_below(b),
    decreases b,
{
    if b > 0 {
        lemma_moved(b - 1);
    }
}

/// The characters of the bytes: a visible character of Latin-1 is its own; the
/// space and the control characters up to it get the code points from 256 on,
/// delete and what follows it up to the no-break space those from 289 on, and the
/// soft hyphen 323.
pub proof fn bytes_have_their_characters(table: [char; 256], b: u8)
    requires
        call_ensures(bytes_to_unicode, (), table),
    ensures
        b <= 0x20 ==> table@[b as int] as int == 256 + b,
        0x21 <= b <= 0x7E ==> table@[b as int] as int == b,
        0x7F <= b <= 0xA0 ==> table@[b as int] as int == 289 + (b - 0x7F),
        0xA1 <= b <= 0xAC ==> table@[b as int] as int == b,
        b == 0xAD ==> table@[b as int] as int == 323,
        0xAE <= b ==> table@[b as int] as int == b,
        table@[b as int] == symbol(b),
{
    lemma_moved(b as int);
    assert(table@[b as int] == symbol(b));
    assert(0 <= code_of(b as int) < 324);
}

/// Whether a character is the hexadecimal digit of a number, small or capital.
pub open spec fn is_hex(c: char, d: int) -> bool {
    ||| 0 <= d < 10 && c as int == '0' as int + d
    ||| 10 <= d < 16 && c as int == 'a' as int + (d - 10)
    ||| 10 <= d < 16 && c as int == 'A' as int + (d - 10)
}

/// A token of two hexadecimal digits in `<0x` and `>` stands for the byte of that
/// number; a token that is not put so stands for none.
pub proof fn byte_tokens_have_their_byte(token: &str, r: Option<u8>)
    requires
        call_ensures(parse_byte_token, (token,), r),
    ensures
        forall|hi: char, lo: char, x: int, y: int|
            #![trigger is_hex(hi, x), is_hex(lo, y)]
            is_hex(hi, x) && is_hex(lo, y) && token@ == seq!['<', '0', 'x', hi, lo, '>'] ==> r
                == Some((16 * x + y) as u8),
        r is Some ==> token@.len() >= 5 && token@[0] == '<' && token@[1] == '0' && token@[2] == 'x'
            && token@.last() == '>',
        r == byte_value(token@),
{
    assert forall|hi: char, lo: char, x: int, y: int|
        #![trigger is_hex(hi, x), is_hex(lo, y)]
        is_hex(hi, x) && is_hex(lo, y) && token@ == seq!['<', '0', 'x', hi, lo, '>'] implies r
        == Some((16 * x + y) as u8) by {
        let t = seq!['<', '0', 'x', hi, lo, '>'];
        assert(t.take(3) =~= seq!['<', '0', 'x']);
        let s = t.subrange(3, 5);
        assert(s =~= seq![hi, lo]);
        let one = s.drop_last();
        assert(one =~= seq![hi]);
        assert(one.drop_last() =~= seq![]);
        assert(hex_value(one.drop_last()) == Some(0int));
        assert(hex_digit(hi) == Some(x) && hex_digit(lo) == Some(y));
        assert(hex_value(one) == Some(x));
        assert(hex_value(s) == Some(16 * x + y));
        assert(hi != '+');
        assert(hex_byte(s) == Some((16 * x + y) as u8));
    }
    if r is Some {
        let t = token@;
        assert(t.take(3)[0] == t[0] && t.take(3)[1] == t[1] && t.take(3)[2] == t[2]);
        if t.len() == 4 {
            assert(t.subrange(3, 3) =~= seq![]);
        }
    }
}

/// The digits of a byte token are a number: one digit is its own value, zeros
/// before it do not change it, and a number of 256 or more is no byte.
pub proof fn byte_tokens_hold_numbers(c: char, d: int, digits: Seq<char>, x: int, y: int)
    requires
        is_hex(c, d),
    ensures
        byte_value(seq!['<', '0', 'x', c, '>']) == Some(d as u8),
        digits.len() > 0 && digits[0] != '+' ==> byte_value(
            seq!['<', '0', 'x', '0'] + digits + seq!['>'],
        ) == byte_value(seq!['<', '0', 'x'] + digits + seq!['>']),
        d > 0 && digits.len() == 2 && is_hex(digits[0], x) && is_hex(digits[1], y) ==> byte_value(
            seq!['<', '0', 'x', c] + digits + seq!['>'],
        ) is None,
{
    let none = Seq::<char>::empty();
    assert(hex_value(none) == Some(0int));
    assert(hex_digit(c) == Some(d));
    let one = seq![c];
    assert(one.drop_last() =~= none);
    let t = seq!['<', '0', 'x', c, '>'];
    assert(t.take(3) =~= seq!['<', '0', 'x']);
    assert(t.subrange(3, 4) =~= one);
    assert(hex_byte(one) == Some(d as u8));
    if digits.len() > 0 && digits[0] != '+' {
        let a = seq!['<', '0', 'x', '0'] + digits + seq!['>'];
        let b = seq!['<', '0', 'x'] + digits + seq!['>'];
        assert(a.take(3) =~= seq!['<', '0', 'x']);
        assert(b.take(3) =~= seq!['<', '0', 'x']);
        assert(a.subrange(3, a.len() - 1) =~= seq!['0'] + digits);
        assert(b.subrange(3, b.len() - 1) =~= digits);
        lemma_zero_digit(digits);
    }
    if d > 0 && digits.len() == 2 && is_hex(digits[0], x) && is_hex(digits[1], y) {
        let a = seq!['<', '0', 'x', c] + digits + seq!['>'];
        let s = seq![c] + digits;
        assert(a.take(3) =~= seq!['<', '0', 'x']);
        assert(a.subrange(3, a.len() - 1) =~= s);
        assert(s.drop_last().drop_last() =~= one);
        assert(hex_value(one) == Some(d));
        assert(s.drop_last().last() == digits[0] && s.last() == digits[1]);
        assert(hex_value(s.drop_last()) == Some(16 * d + x));
        assert(hex_value(s) == Some(16 * (16 * d + x) + y));
    }
}

/// A plus sign before the digits of a byte token does not change it; any other
/// character that is no hexadecimal digit makes it none.
pub proof fn other_tokens_are_no_bytes(digits: Seq<char>, i: int)
    requires
        digits.len() > 0,
    ensures
        digits[0] != '+' ==> byte_value(seq!['<', '0', 'x', '+'] + digits + seq!['>'])
            == byte_value(seq!['<', '0', 'x'] + digits + seq!['>']),
        0 <= i < digits.len() && (forall|d: int| !is_hex(digits[i], d)) && (i > 0 || digits[0]
            != '+') ==> byte_value(seq!['<', '0', 'x'] + digits + seq!['>']) is None,
{
    let b = seq!['<', '0', 'x'] + digits + seq!['>'];
    assert(b.take(3) =~= seq!['<', '0', 'x']);
    assert(b.subrange(3, b.len() - 1) =~= digits);
    if digits[0] != '+' {
        let a = seq!['<', '0', 'x', '+'] + digits + seq!['>'];
        assert(a.take(3) =~= seq!['<', '0', 'x']);
        let s = a.subrange(3, a.len() - 1);
        assert(s =~= seq!['+'] + digits);
        assert(s.skip(1) =~= digits);
    }
    if 0 <= i < digits.len() && (forall|d: int| !is_hex(digits[i], d)) && (i > 0 || digits[0]
        != '+') {
        assert(hex_digit(digits[i]) is None) by {
            let c = digits[i];
            assert(!is_hex(c, c as int - '0' as int));
            assert(!is_hex(c, c as int - 'a' as int + 10));
            assert(!is_hex(c, c as int - 'A' as int + 10));
        }
        if digits.len() > 1 && digits[0] == '+' {
            assert(digits.skip(1)[i - 1] == digits[i]);
            lemma_no_digit(digits.skip(1), i - 1);
        } else {
            lemma_no_digit(digits, i);
        }
    }
}

proof fn lemma_no_digit(digits: Seq<char>, i: int)
    requires
        0 <= i < digits.len(),
        hex_digit(digits[i]) is None,
    ensures
        hex_value(digits) is None,
    decreases digits.len(),
{
    if i < digits.len() - 1 {
        lemma_no_digit(digits.drop_last(), i);
    }
}

proof fn lemma_zero_digit(digits: Seq<char>)
    ensures
        hex_value(seq!['0'] + digits) == hex_value(digits),
    decreases digits.len(),
{
    let z = seq!['0'] + digits;
    if digits.len() == 0 {
        assert(z.drop_last() =~= Seq::<char>::empty());
        assert(hex_value(z.drop_last()) == Some(0int));
        assert(z.last() == '0');
    } else {
        assert(z.drop_last() =~= seq!['0'] + digits.drop_last());
        assert(z.last() == digits.last());
        lemma_zero_digit(digits.drop_last());
    }
}

/// The bytes that an id of a SentencePiece tokenizer shows as: a byte token, of
/// type 6, as its byte; a control token, of type 3, and an id beyond the
/// vocabulary as nothing; any other token as its text, with spaces for markers.
pub open spec fn spm_shows(t: SpmView, id: u32) -> Seq<u8> {
    if id >= t.tokens.len() || t.types[id as int] == 3 {
        seq![]
    } else if t.types[id as int] == 6 {
        match byte_value(t.tokens[id as int]) {
            Some(b) => seq![b],
            None => seq![],
        }
    } else {
        encode_utf8(
            Seq::new(
                t.tokens[id as int].len(),
                |i: int|
                    if t.tokens[id as int][i] == '\u{2581}' {
                        ' '
                    } else {
                        t.tokens[id as int][i]
                    },
            ),
        )
    }
}

/// SentencePiece ids decode to the text of the bytes that they show as, one id
/// after the other.
pub proof fn spm_decodes_id_by_id(t: &Spm, ids: &[u32], text: String)
    requires
        call_ensures(Spm::decode, (t, ids), text),
    ensures
        ({
            let bytes = ids@.map_values(|id: u32| spm_shows(t@, id)).flatten();
            &&& valid_utf8(bytes) ==> text@ == decode_utf8(bytes)
            &&& !valid_utf8(bytes) ==> text@ == replaced_text(bytes)
        }),
{
    let v = t@;
    let (f, g) = (|id: u32| spm_shows(v, id), |id: u32| v.id_bytes(id));
    assert forall|i: int| 0 <= i < ids@.len() implies f(#[trigger] ids@[i]) == g(ids@[i]) by {
        let id = ids@[i];
        if id < v.tokens.len() {
            let token = v.tokens[id as int];
            assert(unmarked(token) =~= Seq::new(
                token.len(),
                |i: int|
                    if token[i] == '\u{2581}' {
                        ' '
                    } else {
                        token[i]
                    },
            ));
        }
    }
    assert(ids@.map_values(f) =~= ids@.map_values(g));
}

/// The bytes that a character stands for: the one that it is written for, or
/// none.
pub open spec fn char_spells(table: Seq<char>, c: char) -> Seq<u8> {
    if exists|b: u8| #[trigger] table[b as int] == c {
        seq![choose|b: u8| #[trigger] table[b as int] == c]
    } else {
        seq![]
    }
}

/// The bytes that an id of a byte-level BPE tokenizer shows as: those that the
/// characters of its token are written for; none beyond the vocabulary.
pub open spec fn bpe_shows(t: BpeView, table: Seq<char>, id: u32) -> Seq<u8> {
    if id < t.tokens.len() {
        t.tokens[id as int].map_values(|c: char| char_spells(table, c)).flatten()
    } else {
        seq![]
    }
}

proof fn lemma_char_spells(table: Seq<char>, c: char)
    requires
        forall|b: u8| table[b as int] == #[trigger] symbol(b),
    ensures
        byte_of(c) matches Some(b) ==> char_spells(table, c) == seq![b],
        byte_of(c) is None ==> char_spells(table, c) == Seq::<u8>::empty(),
{
    if exists|b: u8| #[trigger] table[b as int] == c {
        let b = choose|b: u8| #[trigger] table[b as int] == c;
        assert(table[b as int] == symbol(b));
        byte_of_symbol(b);
        assert(byte_of(c) == Some(b));
        let x = char_spells(table, c)[0];
        assert(table[x as int] == c);
        assert(table[x as int] == symbol(x));
        alphabet_is_reversible(x, b);
        assert(char_spells(table, c) =~= seq![b]);
    } else if exists|b: u8| #[trigger] symbol(b) == c {
        let b = choose|b: u8| #[trigger] symbol(b) == c;
        assert(symbol(b) == c);
        assert(table[b as int] == c);
        assert(false);
    }
}

proof fn lemma_spelled(table: Seq<char>, token: Seq<char>)
    requires
        forall|b: u8| table[b as int] == #[trigger] symbol(b),
    ensures
        token_bytes(token) == token.map_values(|c: char| char_spells(table, c)).flatten(),
    decreases token.len(),
{
    let f = |c: char| char_spells(table, c);
    if token.len() > 0 {
        let (init, c) = (token.drop_last(), token.last());
        lemma_spelled(table, init);
        lemma_char_spells(table, c);
        assert(token.map_values(f) =~= init.map_values(f).push(f(c)));
        init.map_values(f).lemma_flatten_push(f(c));
        assert(token_bytes(token) =~= token.map_values(f).flatten());
    } else {
        assert(token.map_values(f) =~= seq![]);
    }
}

/// Byte-level BPE ids decode to the text of the bytes that they show as, one id
/// after the other.
pub proof fn bpe_decodes_id_by_id(t: &Bpe, ids: &[u32], text: String, table: [char; 256])
    requires
        call_ensures(Bpe::decode, (t, ids), text),
        call_ensures(bytes_to_unicode, (), table),
    ensures
        ({
            let bytes = ids@.map_values(|id: u32| bpe_shows(t@, table@, id)).flatten();
            &&& valid_utf8(bytes) ==> text@ == decode_utf8(bytes)
            &&& !valid_utf8(bytes) ==> text@ == replaced_text(bytes)
        }),
{
    let v = t@;
    let (f, g) = (|id: u32| bpe_shows(v, table@, id), |id: u32| v.id_bytes(id));
    assert forall|i: int| 0 <= i < ids@.len() implies f(#[trigger] ids@[i]) == g(ids@[i]) by {
        let id = ids@[i];
        if id < v.tokens.len() {
            lemma_spelled(table@, v.tokens[id as int]);
        }
    }
    assert(ids@.map_values(f) =~= ids@.map_values(g));
}

/// The units of a text: joined they are the text, none is empty, and a space
/// stands at the start of every unit but the first, and nowhere else but there.
pub proof fn units_start_with_spaces(text: &str, units: Vec<&str>, i: int, k: int)
    requires
        call_ensures(pretokenize, (text,), units),
        0 <= i < units@.len(),
    ensures
        Seq::new(units@.len(), |j: int| units@[j]@).flatten() == text@,
        units@[i]@.len() > 0,
        0 < i ==> units@[i]@[0] == ' ',
        0 < k < units@[i]@.len() ==> units@[i]@[k] != ' ',
{
    words_join(text@);
    words_shape(text@);
    let w = words(text@);
    assert(Seq::new(units@.len(), |j: int| units@[j]@) =~= w);
    assert(w[i] == units@[i]@);
}

} // verus!
