//! Splitting a text into the units that byte-level BPE merges within.

use vstd::prelude::*;
use vstd::utf8::encode_utf8;

use crate::text::{byte_pos, lemma_byte_range, lemma_char_at, slice_str, utf8_len};

verus! {

/// The units of a text: a space starts a new unit, and every other character
/// belongs to the unit of the one before it.
pub open spec fn words(text: Seq<char>) -> Seq<Seq<char>>
    decreases text.len(),
{
    if text.len() == 0 {
        seq![]
    } else {
        let init = words(text.drop_last());
        if init.len() == 0 || text.last() == ' ' {
            init.push(seq![text.last()])
        } else {
            init.drop_last().push(init.last().push(text.last()))
        }
    }
}

/// The texts of a list of string slices.
pub open spec fn slices(v: Seq<&str>) -> Seq<Seq<char>> {
    Seq::new(v.len(), |i: int| v[i]@)
}

/// Splitting drops nothing: the units, joined, are the text.
pub proof fn words_join(text: Seq<char>)
    ensures
        words(text).flatten() == text,
    decreases text.len(),
{
    if text.len() > 0 {
        let (init, c) = (words(text.drop_last()), text.last());
        words_join(text.drop_last());
        assert(text.drop_last() + seq![c] =~= text);
        if init.len() == 0 || c == ' ' {
            init.lemma_flatten_push(seq![c]);
        } else {
            let front = init.drop_last();
            assert(front.push(init.last()) =~= init);
            front.lemma_flatten_push(init.last());
            front.lemma_flatten_push(init.last().push(c));
            assert(front.flatten() + init.last().push(c) =~= text);
        }
    } else {
        assert(text =~= seq![]);
    }
}

/// The shape of the units: none is empty, a space stands at the start of a unit
/// only, and every unit but the first starts with one.
pub proof fn words_shape(text: Seq<char>)
    ensures
        text.len() > 0 ==> words(text).len() > 0,
        forall|i: int| 0 <= i < words(text).len() ==> (#[trigger] words(text)[i]).len() > 0,
        forall|i: int, k: int|
            0 <= i < words(text).len() && 0 < k < words(text)[i].len() ==> (
            #[trigger] words(text)[i][k]) != ' ',
        forall|i: int| 0 < i < words(text).len() ==> (#[trigger] words(text)[i])[0] == ' ',
    decreases text.len(),
{
    if text.len() > 0 {
        let (init, c) = (words(text.drop_last()), text.last());
        words_shape(text.drop_last());
        let w = words(text);
        assert forall|i: int| 0 <= i < w.len() implies (#[trigger] w[i]).len() > 0 && (i > 0
            ==> w[i][0] == ' ') && (forall|k: int| 0 < k < w[i].len() ==> #[trigger] w[i][k] != ' ')
            by {
            if i < w.len() - 1 {
                assert(w[i] == init[i]);
            } else if init.len() > 0 && c != ' ' {
                assert(w[i] == init[i].push(c));
            }
        }
    }
}

/// Split text into BPE units, a leading space attaching to the word that
/// follows (`" world"` is one unit). Runs of spaces become single-space units.
pub fn pretokenize(text: &str) -> (units: Vec<&str>)
    ensures
        slices(units@) == words(text@),
{
    let bytes: &[u8] = text.as_bytes();
    let ghost s = text@;
    let ghost mut k: int = 0;
    let ghost mut st: int = 0;
    let mut units: Vec<&str> = Vec::new();
    let mut start: usize = 0;
    let mut pos: usize = 0;
    proof {
        lemma_byte_range(s, 0, 0);
        assert(s.take(0) =~= seq![]);
    }
    while pos < bytes.len()
        invariant
            s == text@,
            bytes@ == encode_utf8(s),
            0 <= st <= k <= s.len(),
            st < k || k == 0,
            pos == byte_pos(s, k),
            start == byte_pos(s, st),
            pos <= bytes@.len(),
            k == 0 ==> units@.len() == 0 && words(s.take(k)) == Seq::<Seq<char>>::empty(),
            k > 0 ==> words(s.take(k)) == slices(units@).push(s.subrange(st, k)),
        decreases bytes@.len() - pos,
    {
        proof {
            lemma_byte_range(s, k, s.len() as int);
            if k == s.len() {
                assert(false);
            }
            lemma_char_at(s, k);
            lemma_byte_range(s, st, k);
            assert(s.take(k + 1).drop_last() =~= s.take(k));
            assert(s.take(k + 1).last() == s[k]);
        }
        let ghost before = slices(units@);
        if bytes[pos] == 0x20 && pos > start {
            let unit: &str = slice_str(text, start, pos, Ghost(st), Ghost(k));
            units.push(unit);
            start = pos;
            proof {
                assert(slices(units@) =~= before.push(s.subrange(st, k)));
                st = k;
            }
        }
        proof {
            assert(s.subrange(k, k + 1) =~= seq![s[k]]);
            assert(s.subrange(st, k + 1) =~= s.subrange(st, k).push(s[k]));
            if k > 0 {
                assert(before.push(s.subrange(st, k)).drop_last() =~= before);
                if s[k] == ' ' {
                    lemma_width(s, k);
                }
            } else {
                assert(words(s.take(1)) =~= slices(units@).push(s.subrange(0, 1)));
            }
            k = k + 1;
        }
        pos += utf8_len(bytes[pos]);
    }
    proof {
        lemma_byte_range(s, k, s.len() as int);
        if k < s.len() {
            lemma_char_at(s, k);
        }
        assert(s.take(k) =~= s);
        lemma_byte_range(s, st, k);
    }
    let ghost before = slices(units@);
    if start < bytes.len() {
        proof {
            if k == 0 {
                assert(s =~= seq![]);
            }
        }
        let unit: &str = slice_str(text, start, bytes.len(), Ghost(st), Ghost(k));
        units.push(unit);
        assert(slices(units@) =~= before.push(s.subrange(st, k)));
    } else {
        proof {
            if k > 0 {
                lemma_char_at(s, st);
            }
        }
    }
    units
}

/// A character further on starts at a later byte.
proof fn lemma_width(s: Seq<char>, k: int)
    requires
        0 < k <= s.len(),
    ensures
        byte_pos(s, k) > byte_pos(s, k - 1),
{
    lemma_char_at(s, k - 1);
}

} // verus!
