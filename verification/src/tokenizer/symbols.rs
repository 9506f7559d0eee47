//! The symbols of a text while its pieces merge: a linked list in which each
//! symbol that is left covers a run of characters, and each one that has merged
//! into its left neighbour is empty.

use vstd::prelude::*;
use vstd::utf8::encode_utf8;

use crate::text::{byte_pos, lemma_byte_range, lemma_char_at};
use crate::tokenizer::merge::merge_at;

verus! {

/// No neighbour.
pub const NONE: usize = usize::MAX;

/// A symbol: a byte range of the text, and the places of its neighbours. One
/// of length zero has merged away.
#[derive(Clone, Copy, Debug, PartialEq, Eq, Structural)]
pub struct Symbol {
    pub prev: usize,
    pub next: usize,
    pub start: usize,
    pub len: usize,
}

/// Whether `cuts` are the places at which a text of `n` characters is cut into
/// pieces, both ends included.
pub open spec fn is_cut(cuts: Seq<int>, n: int) -> bool {
    &&& cuts.len() >= 2
    &&& cuts[0] == 0
    &&& cuts.last() == n
    &&& forall|i: int, j: int| 0 <= i < j < cuts.len() ==> cuts[i] < cuts[j]
}

/// The pieces between the cuts.
pub open spec fn pieces(norm: Seq<char>, cuts: Seq<int>) -> Seq<Seq<char>> {
    Seq::new((cuts.len() - 1) as nat, |k: int| norm.subrange(cuts[k], cuts[k + 1]))
}

/// The place of piece `k`, if there is one.
pub open spec fn link(cuts: Seq<int>, k: int) -> usize {
    if 0 <= k < cuts.len() - 1 {
        cuts[k] as usize
    } else {
        NONE
    }
}

/// The symbol of piece `k`.
pub open spec fn symbol_of(norm: Seq<char>, cuts: Seq<int>, k: int) -> Symbol {
    Symbol {
        prev: link(cuts, k - 1),
        next: link(cuts, k + 1),
        start: byte_pos(norm, cuts[k]) as usize,
        len: (byte_pos(norm, cuts[k + 1]) - byte_pos(norm, cuts[k])) as usize,
    }
}

/// The number of the piece that starts at character `i`.
pub open spec fn piece_at(cuts: Seq<int>, i: int) -> int {
    choose|k: int| 0 <= k < cuts.len() - 1 && cuts[k] == i
}

/// Whether the symbols say what the cuts say.
pub open spec fn chain(syms: Seq<Symbol>, norm: Seq<char>, cuts: Seq<int>) -> bool {
    &&& is_cut(cuts, norm.len() as int)
    &&& syms.len() == norm.len()
    &&& encode_utf8(norm).len() <= usize::MAX
    &&& forall|k: int|
        0 <= k < cuts.len() - 1 ==> syms[cuts[k]] == #[trigger] symbol_of(norm, cuts, k)
    &&& forall|i: int|
        0 <= i < syms.len() && (#[trigger] syms[i]).len > 0 ==> 0 <= piece_at(cuts, i) < cuts.len()
            - 1 && cuts[piece_at(cuts, i)] == i
}

/// Later characters start at later bytes.
pub proof fn lemma_bytes_grow(norm: Seq<char>, i: int, j: int)
    requires
        0 <= i < j <= norm.len(),
    ensures
        byte_pos(norm, i) < byte_pos(norm, j) <= encode_utf8(norm).len(),
{
    lemma_char_at(norm, i);
    lemma_byte_range(norm, i + 1, j);
}

/// A character starts no earlier than at the byte of its own number.
pub proof fn lemma_bytes_bound(norm: Seq<char>, i: int)
    requires
        0 <= i <= norm.len(),
    ensures
        i <= byte_pos(norm, i) <= encode_utf8(norm).len(),
    decreases i,
{
    if i > 0 {
        lemma_bytes_bound(norm, i - 1);
        lemma_bytes_grow(norm, i - 1, i);
    } else {
        lemma_byte_range(norm, 0, 0);
    }
}

/// What the cuts say of piece `k`.
pub proof fn lemma_cut(cuts: Seq<int>, n: int, k: int)
    requires
        is_cut(cuts, n),
        0 <= k < cuts.len() - 1,
    ensures
        0 <= cuts[k] < cuts[k + 1] <= n,
        piece_at(cuts, cuts[k]) == k,
{
    assert(cuts[k] < cuts[k + 1]);
    if k > 0 {
        assert(cuts[0] < cuts[k]);
    }
    if k + 1 < cuts.len() - 1 {
        assert(cuts[k + 1] < cuts[cuts.len() - 1]);
    }
    let m = piece_at(cuts, cuts[k]);
    assert(0 <= m < cuts.len() - 1 && cuts[m] == cuts[k]);
    if m < k {
        assert(cuts[m] < cuts[k]);
    } else if k < m {
        assert(cuts[k] < cuts[m]);
    }
}

/// What the symbol of piece `k` says.
pub proof fn lemma_symbol(syms: Seq<Symbol>, norm: Seq<char>, cuts: Seq<int>, k: int)
    requires
        chain(syms, norm, cuts),
        0 <= k < cuts.len() - 1,
    ensures
        0 <= cuts[k] < cuts[k + 1] <= norm.len(),
        syms[cuts[k]] == symbol_of(norm, cuts, k),
        syms[cuts[k]].start == byte_pos(norm, cuts[k]),
        syms[cuts[k]].start + syms[cuts[k]].len == byte_pos(norm, cuts[k + 1]),
        syms[cuts[k]].len > 0,
        byte_pos(norm, cuts[k + 1]) <= encode_utf8(norm).len(),
        syms[cuts[k]].next == NONE <==> k == cuts.len() - 2,
        k < cuts.len() - 2 ==> syms[cuts[k]].next == cuts[k + 1],
        syms[cuts[k]].prev == NONE <==> k == 0,
        k > 0 ==> syms[cuts[k]].prev == cuts[k - 1],
{
    lemma_cut(cuts, norm.len() as int, k);
    if k > 0 {
        lemma_cut(cuts, norm.len() as int, k - 1);
    }
    if k + 1 < cuts.len() - 1 {
        lemma_cut(cuts, norm.len() as int, k + 1);
    }
    lemma_bytes_grow(norm, cuts[k], cuts[k + 1]);
    lemma_byte_range(norm, 0, cuts[k]);
    lemma_bytes_bound(norm, norm.len() as int);
    assert(symbol_of(norm, cuts, k) == syms[cuts[k]]);
}

/// Taking out a cut merges the two pieces at it.
proof fn lemma_uncut(norm: Seq<char>, cuts: Seq<int>, k: int)
    requires
        is_cut(cuts, norm.len() as int),
        0 <= k < cuts.len() - 2,
    ensures
        is_cut(cuts.remove(k + 1), norm.len() as int),
        pieces(norm, cuts.remove(k + 1)) == merge_at(pieces(norm, cuts), k),
{
    let rest = cuts.remove(k + 1);
    let n = norm.len() as int;
    assert forall|i: int, j: int| 0 <= i < j < rest.len() implies rest[i] < rest[j] by {
        let (a, b) = (
            if i <= k {
                i
            } else {
                i + 1
            },
            if j <= k {
                j
            } else {
                j + 1
            },
        );
        assert(cuts[a] < cuts[b]);
    }
    lemma_cut(cuts, n, k);
    lemma_cut(cuts, n, k + 1);
    let (p, q) = (pieces(norm, rest), merge_at(pieces(norm, cuts), k));
    assert forall|i: int| 0 <= i < p.len() implies p[i] =~= q[i] by {
        if i == k {
            assert(p[i] =~= norm.subrange(cuts[k], cuts[k + 2]));
        }
    }
    assert(p =~= q);
}

/// Merges the symbol of piece `k + 1` into that of piece `k`.
pub(crate) fn join(
    syms: &mut Vec<Symbol>,
    left: usize,
    right: usize,
    Ghost(norm): Ghost<Seq<char>>,
    Ghost(cuts): Ghost<Seq<int>>,
    Ghost(k): Ghost<int>,
)
    requires
        chain(old(syms)@, norm, cuts),
        0 <= k < cuts.len() - 2,
        left == cuts[k],
        right == cuts[k + 1],
    ensures
        chain(final(syms)@, norm, cuts.remove(k + 1)),
        pieces(norm, cuts.remove(k + 1)) == merge_at(pieces(norm, cuts), k),
        final(syms)@[right as int].len == 0,
        forall|i: int|
            0 <= i < old(syms)@.len() && i != left && i != right ==> (
            #[trigger] final(syms)@[i]).next == old(syms)@[i].next && final(syms)@[i].len
                == old(syms)@[i].len,
{
    let ghost before = syms@;
    let ghost rest = cuts.remove(k + 1);
    proof {
        lemma_symbol(before, norm, cuts, k);
        lemma_symbol(before, norm, cuts, k + 1);
        if k + 2 < cuts.len() - 1 {
            lemma_symbol(before, norm, cuts, k + 2);
        }
        lemma_uncut(norm, cuts, k);
    }
    let (l, r) = (syms[left], syms[right]);
    syms.set(left, Symbol { prev: l.prev, next: r.next, start: l.start, len: l.len + r.len });
    syms.set(right, Symbol { prev: r.prev, next: r.next, start: r.start, len: 0 });
    if r.next != NONE {
        let n: Symbol = syms[r.next];
        syms.set(r.next, Symbol { prev: left, next: n.next, start: n.start, len: n.len });
    }
    proof {
        assert forall|m: int| 0 <= m < rest.len() - 1 implies syms@[rest[m]] == #[trigger] symbol_of(
            norm,
            rest,
            m,
        ) by {
            let o = if m <= k {
                m
            } else {
                m + 1
            };
            lemma_symbol(before, norm, cuts, o);
            assert(rest[m] == cuts[o]);
            assert(rest[m + 1] == (if m < k {
                cuts[o + 1]
            } else if m == k {
                cuts[k + 2]
            } else {
                cuts[o + 1]
            }));
            lemma_apart(cuts, norm.len() as int, o, k);
            lemma_apart(cuts, norm.len() as int, o, k + 1);
            if k + 2 < cuts.len() - 1 {
                lemma_apart(cuts, norm.len() as int, o, k + 2);
            }
            if m == k + 1 {
                assert(link(rest, m - 1) == left);
            }
        }
        assert forall|i: int| 0 <= i < syms@.len() && (#[trigger] syms@[i]).len > 0 implies 0
            <= piece_at(rest, i) < rest.len() - 1 && rest[piece_at(rest, i)] == i by {
            assert(i != right);
            assert(before[i].len > 0);
            let o = piece_at(cuts, i);
            let m = if o <= k {
                o
            } else {
                o - 1
            };
            assert(cuts[o] == i);
            assert(rest[m] == i);
            lemma_cut(rest, norm.len() as int, m);
        }
    }
}

proof fn lemma_apart(cuts: Seq<int>, n: int, i: int, j: int)
    requires
        is_cut(cuts, n),
        0 <= i < cuts.len() - 1,
        0 <= j < cuts.len() - 1,
    ensures
        i != j ==> cuts[i] != cuts[j],
{
    if i < j {
        assert(cuts[i] < cuts[j]);
    } else if j < i {
        assert(cuts[j] < cuts[i]);
    }
}

} // verus!
