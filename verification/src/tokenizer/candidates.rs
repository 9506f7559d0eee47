//! What the queue of candidate merges knows of the symbols: every pair of
//! neighbours that may merge is in it, and an entry that the symbols have
//! outlived shows as such.

use vstd::multiset::Multiset;
use vstd::prelude::*;
use vstd::utf8::encode_utf8;

use crate::text::{byte_pos, lemma_byte_range, lemma_char_at, utf8_len};
use crate::tokenizer::merge::{is_top, pair_priority, singles, Priority};
use crate::tokenizer::queue::{no_better, Bigram};
use crate::tokenizer::symbols::{
    chain, is_cut, lemma_bytes_bound, lemma_bytes_grow, lemma_cut, lemma_symbol, piece_at, pieces,
    symbol_of, Symbol, NONE,
};

verus! {

/// The score of a piece, if it has one.
pub type Score = spec_fn(Seq<char>) -> Option<int>;

/// Two pieces merge at the score of the piece that they make.
pub open spec fn by_score(score: Score) -> Priority {
    |a: Seq<char>, b: Seq<char>| score(a + b)
}

/// The text of the pieces `k` and `k + 1` together.
pub open spec fn pair_text(norm: Seq<char>, cuts: Seq<int>, k: int) -> Seq<char> {
    norm.subrange(cuts[k], cuts[k + 2])
}

/// The candidate merge of the pieces `k` and `k + 1`.
pub open spec fn candidate(norm: Seq<char>, cuts: Seq<int>, k: int, score: int) -> Bigram {
    Bigram {
        left: cuts[k] as usize,
        right: cuts[k + 1] as usize,
        score: score as i64,
        size: (byte_pos(norm, cuts[k + 2]) - byte_pos(norm, cuts[k])) as usize,
    }
}

/// The character that starts at a byte.
pub open spec fn char_from(norm: Seq<char>, p: int) -> int {
    choose|j: int| 0 <= j <= norm.len() && #[trigger] byte_pos(norm, j) == p
}

proof fn lemma_char_from(norm: Seq<char>, j: int)
    requires
        0 <= j <= norm.len(),
    ensures
        char_from(norm, byte_pos(norm, j)) == j,
{
    let i = char_from(norm, byte_pos(norm, j));
    assert(0 <= i <= norm.len() && byte_pos(norm, i) == byte_pos(norm, j));
    if i < j {
        lemma_bytes_grow(norm, i, j);
    } else if j < i {
        lemma_bytes_grow(norm, j, i);
    }
}

/// Where the piece that an entry would make ends.
pub open spec fn entry_end(norm: Seq<char>, e: Bigram) -> int {
    char_from(norm, byte_pos(norm, e.left as int) + e.size)
}

/// Whether an entry of the queue is in order: its score is that of the text it
/// was made for, and as long as both its symbols are there they are
/// neighbours.
pub open spec fn entry_ok(norm: Seq<char>, syms: Seq<Symbol>, score: Score, e: Bigram) -> bool {
    let end = entry_end(norm, e);
    &&& e.left < e.right < norm.len()
    &&& syms[e.left as int].len > 0 && syms[e.right as int].len > 0 ==> syms[e.left as int].next
        == e.right
    &&& e.right < end <= norm.len()
    &&& byte_pos(norm, end) == byte_pos(norm, e.left as int) + e.size
    &&& score(norm.subrange(e.left as int, end)) == Some(e.score as int)
}

pub open spec fn all_ok(
    norm: Seq<char>,
    syms: Seq<Symbol>,
    score: Score,
    q: Multiset<Bigram>,
) -> bool {
    forall|e: Bigram| #[trigger] q.contains(e) ==> entry_ok(norm, syms, score, e)
}

/// Whether the queue holds the candidate for the pieces `k` and `k + 1`, if
/// they may merge.
pub open spec fn holds_pair(
    norm: Seq<char>,
    cuts: Seq<int>,
    score: Score,
    q: Multiset<Bigram>,
    k: int,
) -> bool {
    match score(pair_text(norm, cuts, k)) {
        Some(x) => q.contains(candidate(norm, cuts, k, x)),
        None => true,
    }
}

pub open spec fn holds_all(
    norm: Seq<char>,
    cuts: Seq<int>,
    score: Score,
    q: Multiset<Bigram>,
) -> bool {
    forall|k: int| 0 <= k < cuts.len() - 2 ==> #[trigger] holds_pair(norm, cuts, score, q, k)
}

/// Whether every score fits the field that holds it.
pub open spec fn scores_fit(score: Score) -> bool {
    forall|s: Seq<char>|
        (#[trigger] score(s)) is Some ==> i64::MIN <= score(s)->0 <= i64::MAX
}

/// The priority of two neighbours is the score of their text.
pub(crate) proof fn lemma_pair_text(norm: Seq<char>, cuts: Seq<int>, score: Score, k: int)
    requires
        is_cut(cuts, norm.len() as int),
        0 <= k < cuts.len() - 2,
    ensures
        pair_priority(pieces(norm, cuts), by_score(score), k) == score(pair_text(norm, cuts, k)),
{
    lemma_cut(cuts, norm.len() as int, k);
    lemma_cut(cuts, norm.len() as int, k + 1);
    let p = pieces(norm, cuts);
    assert(p[k] + p[k + 1] =~= pair_text(norm, cuts, k));
}

/// The candidate of two neighbours is in order.
pub(crate) proof fn lemma_candidate_ok(
    norm: Seq<char>,
    syms: Seq<Symbol>,
    cuts: Seq<int>,
    score: Score,
    k: int,
)
    requires
        chain(syms, norm, cuts),
        scores_fit(score),
        0 <= k < cuts.len() - 2,
        score(pair_text(norm, cuts, k)) is Some,
    ensures
        entry_ok(
            norm,
            syms,
            score,
            candidate(norm, cuts, k, score(pair_text(norm, cuts, k))->0),
        ),
{
    lemma_symbol(syms, norm, cuts, k);
    lemma_symbol(syms, norm, cuts, k + 1);
    lemma_bytes_grow(norm, cuts[k], cuts[k + 2]);
    lemma_byte_range(norm, 0, cuts[k]);
    lemma_char_from(norm, cuts[k + 2]);
}

/// An entry whose symbols are both there and have the lengths that it was made
/// for is the candidate of two neighbours.
pub(crate) proof fn lemma_live(
    norm: Seq<char>,
    syms: Seq<Symbol>,
    cuts: Seq<int>,
    score: Score,
    e: Bigram,
) -> (k: int)
    requires
        chain(syms, norm, cuts),
        scores_fit(score),
        entry_ok(norm, syms, score, e),
        syms[e.left as int].len > 0,
        syms[e.right as int].len > 0,
        syms[e.left as int].len + syms[e.right as int].len == e.size,
    ensures
        0 <= k < cuts.len() - 2,
        cuts[k] == e.left,
        cuts[k + 1] == e.right,
        score(pair_text(norm, cuts, k)) == Some(e.score as int),
        e == candidate(norm, cuts, k, e.score as int),
{
    let k = piece_at(cuts, e.left as int);
    assert(0 <= k < cuts.len() - 1 && cuts[k] == e.left);
    lemma_symbol(syms, norm, cuts, k);
    assert(k < cuts.len() - 2);
    lemma_symbol(syms, norm, cuts, k + 1);
    lemma_char_from(norm, cuts[k + 2]);
    k
}

/// The best entry of the queue, if it is still alive, is the pair of the
/// highest priority.
pub(crate) proof fn lemma_best(
    norm: Seq<char>,
    cuts: Seq<int>,
    score: Score,
    q: Multiset<Bigram>,
    e: Bigram,
    k: int,
)
    requires
        is_cut(cuts, norm.len() as int),
        norm.len() <= usize::MAX,
        scores_fit(score),
        holds_all(norm, cuts, score, q),
        forall|x: Bigram| #[trigger] q.contains(x) ==> no_better(x, e),
        0 <= k < cuts.len() - 2,
        e == candidate(norm, cuts, k, e.score as int),
        score(pair_text(norm, cuts, k)) == Some(e.score as int),
    ensures
        is_top(pieces(norm, cuts), by_score(score), k),
{
    let (p, prio) = (pieces(norm, cuts), by_score(score));
    lemma_pair_text(norm, cuts, score, k);
    lemma_cut(cuts, norm.len() as int, k);
    assert forall|j: int|
        0 <= j < p.len() - 1 && (#[trigger] pair_priority(p, prio, j)) is Some implies {
        let (x, y) = (pair_priority(p, prio, j)->0, pair_priority(p, prio, k)->0);
        x < y || x == y && k <= j
    } by {
        lemma_pair_text(norm, cuts, score, j);
        lemma_cut(cuts, norm.len() as int, j);
        assert(holds_pair(norm, cuts, score, q, j));
        let x = score(pair_text(norm, cuts, j))->0;
        assert(q.contains(candidate(norm, cuts, j, x)));
        if j < k {
            assert(cuts[j] < cuts[k]);
        }
    }
}

/// An empty queue means that nothing may merge.
pub(crate) proof fn lemma_exhausted(
    norm: Seq<char>,
    cuts: Seq<int>,
    score: Score,
    q: Multiset<Bigram>,
)
    requires
        is_cut(cuts, norm.len() as int),
        holds_all(norm, cuts, score, q),
        q == Multiset::<Bigram>::empty(),
    ensures
        forall|k: int|
            0 <= k < pieces(norm, cuts).len() - 1 ==> (#[trigger] pair_priority(
                pieces(norm, cuts),
                by_score(score),
                k,
            )) is None,
{
    assert forall|k: int| 0 <= k < pieces(norm, cuts).len() - 1 implies (#[trigger] pair_priority(
        pieces(norm, cuts),
        by_score(score),
        k,
    )) is None by {
        lemma_pair_text(norm, cuts, score, k);
        assert(holds_pair(norm, cuts, score, q, k));
    }
}

/// Entries stay in order when two neighbours merge.
pub(crate) proof fn lemma_ok_after(
    norm: Seq<char>,
    before: Seq<Symbol>,
    after: Seq<Symbol>,
    score: Score,
    q: Multiset<Bigram>,
    left: usize,
    right: usize,
)
    requires
        all_ok(norm, before, score, q),
        before.len() == norm.len(),
        after.len() == norm.len(),
        left < right < norm.len(),
        before[left as int].len > 0,
        before[right as int].len > 0,
        before[left as int].next == right,
        after[right as int].len == 0,
        forall|i: int|
            0 <= i < before.len() && i != left && i != right ==> (#[trigger] after[i]).next
                == before[i].next && after[i].len == before[i].len,
    ensures
        all_ok(norm, after, score, q),
{
    assert forall|e: Bigram| #[trigger] q.contains(e) implies entry_ok(norm, after, score, e) by {
        assert(entry_ok(norm, before, score, e));
        let (l, r) = (after[e.left as int], after[e.right as int]);
        if l.len > 0 && r.len > 0 {
            assert(e.right != right && e.left != right);
            if e.right != left {
                assert(before[e.right as int].len > 0);
            }
        }
    }
}

/// The queue after a merge: what it held of the pairs away from the merge it
/// holds still.
pub(crate) proof fn lemma_holds_after(
    norm: Seq<char>,
    cuts: Seq<int>,
    score: Score,
    q: Multiset<Bigram>,
    k: int,
    e: Bigram,
    m: int,
)
    requires
        is_cut(cuts, norm.len() as int),
        norm.len() <= usize::MAX,
        0 <= k < cuts.len() - 2,
        e.left == cuts[k],
        holds_all(norm, cuts, score, q),
        0 <= m < cuts.len() - 3,
        m < k - 1 || m > k,
    ensures
        holds_pair(norm, cuts.remove(k + 1), score, q.remove(e), m),
{
    let rest = cuts.remove(k + 1);
    let o = if m < k {
        m
    } else {
        m + 1
    };
    assert(rest[m] == cuts[o] && rest[m + 1] == cuts[o + 1] && rest[m + 2] == cuts[o + 2]);
    assert(pair_text(norm, rest, m) == pair_text(norm, cuts, o));
    assert(holds_pair(norm, cuts, score, q, o));
    lemma_cut(cuts, norm.len() as int, o);
    lemma_cut(cuts, norm.len() as int, k);
    if o < k {
        assert(cuts[o] < cuts[k]);
    } else {
        assert(cuts[k] < cuts[o]);
    }
    match score(pair_text(norm, cuts, o)) {
        Some(x) => {
            assert(candidate(norm, rest, m, x) == candidate(norm, cuts, o, x));
            assert(candidate(norm, cuts, o, x) != e);
        },
        None => {},
    }
}

/// The cuts between all characters.
pub open spec fn all_cuts(n: int) -> Seq<int> {
    Seq::new((n + 1) as nat, |i: int| i)
}

/// Seeds one symbol per character of a text.
pub(crate) fn seed(norm: &str) -> (syms: Vec<Symbol>)
    requires
        norm@.len() > 0,
    ensures
        chain(syms@, norm@, all_cuts(norm@.len() as int)),
        pieces(norm@, all_cuts(norm@.len() as int)) == singles(norm@),
{
    let bytes: &[u8] = norm.as_bytes();
    let ghost s = norm@;
    let ghost cuts = all_cuts(s.len() as int);
    let mut syms: Vec<Symbol> = Vec::new();
    let mut i: usize = 0;
    proof {
        lemma_byte_range(s, 0, s.len() as int);
        assert(bytes@.len() == bytes.len());
    }
    while i < bytes.len()
        invariant
            s == norm@,
            bytes@ == encode_utf8(s),
            bytes@.len() <= usize::MAX,
            cuts == all_cuts(s.len() as int),
            syms@.len() <= s.len(),
            i == byte_pos(s, syms@.len() as int),
            i <= bytes@.len(),
            forall|k: int| 0 <= k < syms@.len() ==> syms@[k] == #[trigger] symbol_of(s, cuts, k),
        decreases bytes@.len() - i,
    {
        let ghost k = syms@.len() as int;
        proof {
            lemma_byte_range(s, 0, s.len() as int);
            lemma_bytes_bound(s, s.len() as int);
            assert(k < s.len());
            lemma_char_at(s, k);
            lemma_byte_range(s, k + 1, s.len() as int);
            if k + 1 < s.len() {
                lemma_char_at(s, k + 1);
            }
        }
        let idx: usize = syms.len();
        let len: usize = utf8_len(bytes[i]);
        let prev: usize = if idx == 0 {
            NONE
        } else {
            idx - 1
        };
        let next: usize = if i + len < bytes.len() {
            idx + 1
        } else {
            NONE
        };
        syms.push(Symbol { prev, next, start: i, len });
        assert(symbol_of(s, cuts, k) == syms@[k]);
        i += len;
    }
    proof {
        let n = s.len() as int;
        if syms@.len() < n {
            lemma_char_at(s, syms@.len() as int);
        }
        assert forall|j: int| 0 <= j < syms@.len() && (#[trigger] syms@[j]).len > 0 implies 0
            <= piece_at(cuts, j) < cuts.len() - 1 && cuts[piece_at(cuts, j)] == j by {
            assert(cuts[j] == j);
        }
        assert(pieces(s, cuts) =~= singles(s)) by {
            assert forall|j: int| 0 <= j < n implies pieces(s, cuts)[j] =~= singles(s)[j] by {}
        }
    }
    syms
}

} // verus!
