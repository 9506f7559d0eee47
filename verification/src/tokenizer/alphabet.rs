//! The byte alphabet: a printable character for every byte, so that BPE works
//! on texts without spaces and control characters.

use vstd::prelude::*;
use vstd::utf8::{char_u32_cast, is_scalar};

verus! {

/// `char::from_u32` gives the character with a code point, and `None` where
/// the number is no Unicode scalar value.
pub assume_specification[ char::from_u32 ](i: u32) -> (c: Option<char>)
    ensures
        match c {
            Some(c) => c as u32 == i,
            None => !is_scalar(i),
        },
;

/// Whether a byte stands for itself: it is a printable Latin-1 character.
pub open spec fn printable(b: int) -> bool {
    0x21 <= b <= 0x7E || 0xA1 <= b <= 0xAC || 0xAE <= b <= 0xFF
}

/// How many of the bytes below `b` are not printable.
pub open spec fn unprintable_below(b: int) -> int
    decreases b,
{
    if b <= 0 {
        0
    } else if printable(b - 1) {
        unprintable_below(b - 1)
    } else {
        unprintable_below(b - 1) + 1
    }
}

/// The code point of a byte in the alphabet: a printable byte is its own, and
/// the others get the code points from 256 on, in order.
pub open spec fn code_of(b: int) -> int {
    if printable(b) {
        b
    } else {
        256 + unprintable_below(b)
    }
}

/// The character of a byte.
pub open spec fn symbol(b: u8) -> char {
    code_of(b as int) as u32 as char
}

/// The byte of a character, if the alphabet has the character.
pub open spec fn byte_of(c: char) -> Option<u8> {
    if exists|b: u8| #[trigger] symbol(b) == c {
        Some(choose|b: u8| #[trigger] symbol(b) == c)
    } else {
        None
    }
}

proof fn lemma_below(a: int, b: int)
    requires
        0 <= a <= b,
    ensures
        0 <= unprintable_below(a) <= unprintable_below(b) <= b,
        unprintable_below(b) <= unprintable_below(a) + (b - a),
        a < b && !printable(a) ==> unprintable_below(a) < unprintable_below(b),
    decreases b,
{
    if a < b {
        lemma_below(a, b - 1);
    } else if b > 0 {
        lemma_below(b - 1, b - 1);
    }
}

/// 68 bytes are not printable, so the alphabet ends below code point 324.
proof fn lemma_codes(b: int)
    requires
        0 <= b < 256,
    ensures
        0 <= code_of(b) < 324,
        !printable(b) ==> 256 <= code_of(b),
{
    lemma_below(0, 0x21);
    lemma_printable_run(0x21, 0x7F);
    lemma_below(0x7F, 0xA1);
    lemma_printable_run(0xA1, 0xAD);
    lemma_below(0xAD, 0xAE);
    lemma_printable_run(0xAE, 0x100);
    lemma_below(b, 0x100);
    if b < 0x100 && !printable(b) {
        lemma_below(b, 0x100);
    }
}

proof fn lemma_printable_run(a: int, b: int)
    requires
        0 <= a <= b,
        forall|x: int| a <= x < b ==> #[trigger] printable(x),
    ensures
        unprintable_below(b) == unprintable_below(a),
    decreases b,
{
    if a < b {
        assert(printable(b - 1));
        lemma_printable_run(a, b - 1);
    }
}

proof fn lemma_symbol(b: u8)
    ensures
        symbol(b) as u32 == code_of(b as int),
        code_of(b as int) < 324,
{
    lemma_codes(b as int);
}

/// The alphabet is reversible: no two bytes share a character.
pub proof fn alphabet_is_reversible(a: u8, b: u8)
    requires
        symbol(a) == symbol(b),
    ensures
        a == b,
{
    lemma_symbol(a);
    lemma_symbol(b);
    lemma_codes(a as int);
    lemma_codes(b as int);
    if !printable(a as int) && !printable(b as int) {
        if a < b {
            lemma_below(a as int, b as int);
        } else if b < a {
            lemma_below(b as int, a as int);
        }
    }
}

/// The character of a byte leads back to the byte.
pub proof fn byte_of_symbol(b: u8)
    ensures
        byte_of(symbol(b)) == Some(b),
{
    let c = choose|x: u8| #[trigger] symbol(x) == symbol(b);
    assert(symbol(c) == symbol(b));
    alphabet_is_reversible(b, c);
}

/// No byte is written as a space.
pub proof fn symbol_is_no_space(b: u8)
    ensures
        symbol(b) != ' ',
{
    lemma_symbol(b);
    lemma_codes(b as int);
    assert(' ' as u32 == 0x20);
}

fn is_printable(b: u32) -> (r: bool)
    ensures
        r == printable(b as int),
{
    (0x21 <= b && b <= 0x7E) || (0xA1 <= b && b <= 0xAC) || (0xAE <= b && b <= 0xFF)
}

/// GPT-2's reversible table from bytes to printable characters.
pub fn bytes_to_unicode() -> (table: [char; 256])
    ensures
        forall|b: u8| table@[b as int] == #[trigger] symbol(b),
{
    let mut table: [char; 256] = ['\0'; 256];
    let mut n: u32 = 0;
    let mut b: u32 = 0;
    while b < 256
        invariant
            b <= 256,
            n == unprintable_below(b as int),
            forall|x: u8| x < b ==> table@[x as int] == #[trigger] symbol(x),
        decreases 256 - b,
    {
        proof {
            lemma_codes(b as int);
            lemma_symbol(b as u8);
            lemma_below(0, b as int);
        }
        let code: u32 = if is_printable(b) {
            b
        } else {
            256 + n
        };
        match char::from_u32(code) {
            Some(c) => {
                table[b as usize] = c;
                proof {
                    char_u32_cast(c, code);
                    char_u32_cast(symbol(b as u8), code);
                }
            },
            None => {
                assert(is_scalar(code));
            },
        }
        if !is_printable(b) {
            n += 1;
        }
        b += 1;
    }
    table
}

/// The bytes of the alphabet's characters, by code point.
pub(crate) fn unicode_to_bytes() -> (table: Vec<Option<u8>>)
    ensures
        table@.len() == 324,
        forall|i: int|
            0 <= i < 324 && is_scalar(i as u32) ==> #[trigger] table@[i] == byte_of(
                i as u32 as char,
            ),
{
    let encoder: [char; 256] = bytes_to_unicode();
    let mut table: Vec<Option<u8>> = Vec::new();
    let mut i: usize = 0;
    while i < 324
        invariant
            i <= 324,
            table@.len() == i,
            forall|k: int| 0 <= k < i ==> #[trigger] table@[k] is None,
        decreases 324 - i,
    {
        table.push(None);
        i += 1;
    }
    let mut b: usize = 0;
    while b < 256
        invariant
            b <= 256,
            table@.len() == 324,
            forall|x: u8| encoder@[x as int] == #[trigger] symbol(x),
            forall|x: u8| x < b ==> table@[code_of(x as int)] == Some(x),
            forall|k: int|
                0 <= k < 324 && (#[trigger] table@[k]) is Some ==> table@[k]->0 < b && code_of(
                    table@[k]->0 as int,
                ) == k,
        decreases 256 - b,
    {
        let ghost before = table@;
        proof {
            lemma_symbol(b as u8);
        }
        table.set(encoder[b] as usize, Some(b as u8));
        proof {
            assert forall|x: u8| x < b + 1 implies table@[code_of(x as int)] == Some(x) by {
                lemma_symbol(x);
                if x < b && code_of(x as int) == code_of(b as int) {
                    alphabet_is_reversible(x, b as u8);
                }
            }
        }
        b += 1;
    }
    proof {
        assert forall|i: int| 0 <= i < 324 && is_scalar(i as u32) implies #[trigger] table@[i]
            == byte_of(i as u32 as char) by {
            let c = i as u32 as char;
            assert(c as u32 == i);
            if table@[i] is Some {
                let x = table@[i]->0;
                lemma_symbol(x);
                assert(symbol(x) == c);
                byte_of_symbol(x);
            } else {
                assert forall|x: u8| #[trigger] symbol(x) != c by {
                    lemma_symbol(x);
                    assert(table@[code_of(x as int)] == Some(x));
                }
            }
        }
    }
    table
}

/// The byte of a character, by the table of [`unicode_to_bytes`].
pub(crate) fn find_byte(table: &Vec<Option<u8>>, c: char) -> (b: Option<u8>)
    requires
        table@.len() == 324,
        forall|i: int|
            0 <= i < 324 && is_scalar(i as u32) ==> #[trigger] table@[i] == byte_of(
                i as u32 as char,
            ),
    ensures
        b == byte_of(c),
{
    let code: u32 = c as u32;
    if code < 324 {
        assert(is_scalar(code));
        assert(code as char == c);
        table[code as usize]
    } else {
        proof {
            assert forall|x: u8| #[trigger] symbol(x) != c by {
                lemma_symbol(x);
            }
        }
        None
    }
}

} // verus!
