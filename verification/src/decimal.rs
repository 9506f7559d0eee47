//! Numbers in decimal: writing them, and reading them back.

use vstd::prelude::*;
use vstd::utf8::char_u32_cast;

use crate::text::char_list;

verus! {

/// The character of a digit.
pub open spec fn digit_char(d: int) -> char {
    ('0' as u32 + d) as u32 as char
}

/// A number in decimal, without leading zeros.
pub open spec fn decimal(n: nat) -> Seq<char>
    decreases n,
{
    if n < 10 {
        seq![digit_char(n as int)]
    } else {
        decimal(n / 10).push(digit_char((n % 10) as int))
    }
}

/// The number that decimal digits write.
pub open spec fn digits_value(s: Seq<char>) -> Option<int>
    decreases s.len(),
{
    if s.len() == 0 {
        Some(0)
    } else {
        match digits_value(s.drop_last()) {
            Some(v) => if '0' <= s.last() && s.last() <= '9' {
                Some(10 * v + (s.last() as int - '0' as int))
            } else {
                None
            },
            None => None,
        }
    }
}

/// The number that a text writes, if that is no greater than `max`: digits,
/// with or without a plus sign before them.
pub open spec fn parsed(s: Seq<char>, max: int) -> Option<int> {
    let digits = if s.len() > 0 && s[0] == '+' {
        s.skip(1)
    } else {
        s
    };
    match digits_value(digits) {
        Some(v) => if digits.len() > 0 && v <= max {
            Some(v)
        } else {
            None
        },
        None => None,
    }
}

proof fn lemma_digit_char(d: int)
    requires
        0 <= d < 10,
    ensures
        '0' <= digit_char(d) && digit_char(d) <= '9',
        digit_char(d) as int - '0' as int == d,
        digit_char(d) as u32 == 48 + d,
{
}

/// A number that was written reads back as itself.
pub proof fn read_of_written(n: nat, max: int)
    requires
        n <= max,
    ensures
        parsed(decimal(n), max) == Some(n as int),
{
    lemma_written(n);
    lemma_first_digit(n);
}

proof fn lemma_written(n: nat)
    ensures
        digits_value(decimal(n)) == Some(n as int),
        decimal(n).len() > 0,
    decreases n,
{
    if n < 10 {
        let one = seq![digit_char(n as int)];
        lemma_digit_char(n as int);
        assert(one.drop_last() =~= seq![]);
        assert(digits_value(one.drop_last()) == Some(0int));
        assert(one.last() == digit_char(n as int));
    } else {
        lemma_written(n / 10);
        lemma_digit_char((n % 10) as int);
        assert(decimal(n).drop_last() =~= decimal(n / 10));
    }
}

proof fn lemma_first_digit(n: nat)
    ensures
        decimal(n).len() > 0,
        decimal(n)[0] != '+',
    decreases n,
{
    if n < 10 {
        lemma_digit_char(n as int);
    } else {
        lemma_first_digit(n / 10);
    }
}

proof fn lemma_prefix(s: Seq<char>, k: int)
    requires
        0 <= k <= s.len(),
    ensures
        digits_value(s.take(k)) is None ==> digits_value(s) is None,
        digits_value(s) is Some ==> digits_value(s.take(k)) is Some && digits_value(s)->0
            >= digits_value(s.take(k))->0 >= 0,
    decreases s.len(),
{
    if k < s.len() {
        lemma_prefix(s.drop_last(), k);
        assert(s.drop_last().take(k) =~= s.take(k));
    } else {
        assert(s.take(k) =~= s);
        if s.len() > 0 {
            lemma_prefix(s.drop_last(), s.len() - 1);
        }
    }
}

/// The character of a digit.
fn digit(d: u8) -> (c: char)
    requires
        d < 10,
    ensures
        c == digit_char(d as int),
{
    let c: char = (48 + d) as char;
    proof {
        lemma_digit_char(d as int);
        char_u32_cast(c, (48 + d) as u32);
        char_u32_cast(digit_char(d as int), (48 + d) as u32);
    }
    c
}

/// Writes a number in decimal.
pub fn to_decimal(n: usize) -> (s: String)
    ensures
        s@ == decimal(n as nat),
    decreases n,
{
    let mut s: String = if n < 10 {
        String::new()
    } else {
        to_decimal(n / 10)
    };
    s.push(digit((n % 10) as u8));
    assert(s@ =~= decimal(n as nat));
    s
}

/// Reads a number of at most 64 bits: an error is `None`.
pub fn parse_u64(s: &str) -> (n: Option<u64>)
    ensures
        match n {
            Some(x) => parsed(s@, u64::MAX as int) == Some(x as int),
            None => parsed(s@, u64::MAX as int) is None,
        },
{
    let v: Vec<char> = char_list(s);
    let start: usize = if v.len() > 0 && v[0] == '+' {
        1
    } else {
        0
    };
    let ghost digits = s@.skip(start as int);
    assert(s@.skip(0) =~= s@);
    if start == v.len() {
        return None;
    }
    let mut value: u64 = 0;
    let mut i: usize = start;
    assert(digits.take(0) =~= seq![]);
    while i < v.len()
        invariant
            v@ == s@,
            start <= i <= v@.len(),
            digits == s@.skip(start as int),
            digits.len() > 0,
            digits == (if s@.len() > 0 && s@[0] == '+' {
                s@.skip(1)
            } else {
                s@
            }),
            digits_value(digits.take(i - start)) == Some(value as int),
        decreases v@.len() - i,
    {
        proof {
            let k = i - start;
            assert(digits.take(k + 1).drop_last() =~= digits.take(k));
            assert(digits.take(k + 1).last() == v@[i as int]);
            lemma_prefix(digits, k + 1);
        }
        let c: char = v[i];
        if c < '0' || c > '9' {
            return None;
        }
        let d: u64 = (c as u32 - '0' as u32) as u64;
        if value > (u64::MAX - d) / 10 {
            return None;
        }
        value = value * 10 + d;
        i += 1;
    }
    assert(digits.take(i - start) =~= digits);
    Some(value)
}

/// Reads a size: an error is `None`.
pub fn parse_usize(s: &str) -> (n: Option<usize>)
    ensures
        match n {
            Some(x) => parsed(s@, usize::MAX as int) == Some(x as int),
            None => parsed(s@, usize::MAX as int) is None,
        },
{
    match parse_u64(s) {
        Some(x) => if x <= usize::MAX as u64 {
            Some(x as usize)
        } else {
            None
        },
        None => None,
    }
}

} // verus!
