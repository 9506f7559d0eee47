//! Byte tokens: `<0xXX>`, the fallback for characters without a token.

use vstd::prelude::*;

use crate::text::char_list;

verus! {

/// The value of a hexadecimal digit.
pub open spec fn hex_digit(c: char) -> Option<int> {
    if '0' <= c && c <= '9' {
        Some(c as int - '0' as int)
    } else if 'a' <= c && c <= 'f' {
        Some(c as int - 'a' as int + 10)
    } else if 'A' <= c && c <= 'F' {
        Some(c as int - 'A' as int + 10)
    } else {
        None
    }
}

/// The number that hexadecimal digits write.
pub open spec fn hex_value(digits: Seq<char>) -> Option<int>
    decreases digits.len(),
{
    if digits.len() == 0 {
        Some(0)
    } else {
        match (hex_value(digits.drop_last()), hex_digit(digits.last())) {
            (Some(v), Some(d)) => Some(16 * v + d),
            _ => None,
        }
    }
}

/// The digits of a written number, which may have a plus sign before them.
pub open spec fn unsigned_digits(s: Seq<char>) -> Seq<char> {
    if s.len() > 1 && s[0] == '+' {
        s.skip(1)
    } else {
        s
    }
}

/// The byte that a hexadecimal number below 256 is.
pub open spec fn hex_byte(s: Seq<char>) -> Option<u8> {
    let digits = unsigned_digits(s);
    match hex_value(digits) {
        Some(v) => if digits.len() > 0 && v < 256 {
            Some(v as u8)
        } else {
            None
        },
        None => None,
    }
}

/// The byte that a token `<0xXX>` stands for.
pub open spec fn byte_value(token: Seq<char>) -> Option<u8> {
    let n = token.len();
    if n >= 4 && token.take(3) == seq!['<', '0', 'x'] && token[n - 1] == '>' {
        hex_byte(token.subrange(3, n - 1))
    } else {
        None
    }
}

proof fn lemma_hex_value(s: Seq<char>, k: int)
    requires
        0 <= k <= s.len(),
    ensures
        hex_value(s.take(k)) is None ==> hex_value(s) is None,
        hex_value(s) is Some ==> hex_value(s.take(k)) is Some && hex_value(s)->0 >= hex_value(
            s.take(k),
        )->0 >= 0,
    decreases s.len(),
{
    if k < s.len() {
        lemma_hex_value(s.drop_last(), k);
        assert(s.drop_last().take(k) =~= s.take(k));
    } else {
        assert(s.take(k) =~= s);
        if s.len() > 0 {
            lemma_hex_value(s.drop_last(), s.len() - 1);
        }
    }
}

fn digit(c: char) -> (d: Option<u32>)
    ensures
        match d {
            Some(x) => hex_digit(c) == Some(x as int) && x < 16,
            None => hex_digit(c) is None,
        },
{
    if '0' <= c && c <= '9' {
        Some(c as u32 - '0' as u32)
    } else if 'a' <= c && c <= 'f' {
        Some(c as u32 - 'a' as u32 + 10)
    } else if 'A' <= c && c <= 'F' {
        Some(c as u32 - 'A' as u32 + 10)
    } else {
        None
    }
}

/// Parse a `<0xXX>` byte-fallback token into its byte value.
pub fn parse_byte_token(token: &str) -> (b: Option<u8>)
    ensures
        b == byte_value(token@),
{
    let v: Vec<char> = char_list(token);
    let n: usize = v.len();
    if n < 4 || v[0] != '<' || v[1] != '0' || v[2] != 'x' || v[n - 1] != '>' {
        proof {
            if n >= 4 && token@.take(3) == seq!['<', '0', 'x'] {
                assert(token@.take(3)[0] == '<' && token@.take(3)[1] == '0' && token@.take(3)[2]
                    == 'x');
            }
        }
        return None;
    }
    assert(token@.take(3) =~= seq!['<', '0', 'x']);
    let ghost hex = token@.subrange(3, n - 1);
    let ghost digits = unsigned_digits(hex);
    let start: usize = if n > 5 && v[3] == '+' {
        4
    } else {
        3
    };
    assert(digits =~= token@.subrange(start as int, n - 1));
    if start == n - 1 {
        return None;
    }
    let mut value: u32 = 0;
    let mut i: usize = start;
    assert(digits.take(0) =~= seq![]);
    while i < n - 1
        invariant
            v@ == token@,
            n == v@.len(),
            start <= i <= n - 1,
            digits == token@.subrange(start as int, n - 1),
            digits == unsigned_digits(hex),
            byte_value(token@) == hex_byte(hex),
            hex_value(digits.take(i - start)) == Some(value as int),
            value < 256,
        decreases n - i,
    {
        proof {
            let k = i - start;
            assert(digits.take(k + 1).drop_last() =~= digits.take(k));
            assert(digits.take(k + 1).last() == v@[i as int]);
            lemma_hex_value(digits, k + 1);
        }
        match digit(v[i]) {
            None => return None,
            Some(d) => {
                value = value * 16 + d;
            },
        }
        if value > 255 {
            return None;
        }
        i += 1;
    }
    assert(digits.take(n - 1 - start) =~= digits);
    Some(value as u8)
}

} // verus!
