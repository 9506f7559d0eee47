//! Tokenizing: which neighbours merge, in which order, and what is left of a
//! text when none may.

use vstd::prelude::*;
use vstd::utf8::encode_utf8;

use crate::laws::numbers::{is_number, number_below};
use crate::tokenizer::alphabet::symbol;
use crate::tokenizer::bpe::{mapped, rank_of, Bpe, BpeView};
use crate::tokenizer::bytes::byte_value;
use crate::tokenizer::candidates::by_score;
use crate::tokenizer::merge::{
    is_best, is_top, merge_all, merge_at, merging_is_complete, pair_priority, singles,
    stays_ahead, top_is_best, unordered, Priority,
};
use crate::tokenizer::spm::{byte_place, marked, score_key, Spm, SpmView};
use crate::tokenizer::vocab::{lemma_place, number_of, place_of};
use crate::tokenizer::words::words;

verus! {

/// Whether a text stands at place `i` of a list, and nowhere behind it.
pub open spec fn is_last_place(list: Seq<Seq<char>>, piece: Seq<char>, i: int) -> bool {
    &&& 0 <= i < list.len()
    &&& list[i] == piece
    &&& forall|j: int| i < j < list.len() ==> #[trigger] list[j] != piece
}

/// The pieces with those at `i` and `i + 1` joined to one.
pub open spec fn joined(p: Seq<Seq<char>>, i: int) -> Seq<Seq<char>> {
    Seq::new(
        (p.len() - 1) as nat,
        |j: int|
            if j < i {
                p[j]
            } else if j == i {
                p[i] + p[i + 1]
            } else {
                p[j + 1]
            },
    )
}

/// Whether the pieces `q` are `p` with one pair joined, one that goes first.
pub open spec fn merged_once(
    first: spec_fn(Seq<Seq<char>>, int) -> bool,
    p: Seq<Seq<char>>,
    q: Seq<Seq<char>>,
) -> bool {
    exists|i: int| 0 <= i < p.len() - 1 && #[trigger] first(p, i) && q == joined(p, i)
}

/// Whether every step of a run of merges joins a pair that goes first.
pub open spec fn is_run(
    first: spec_fn(Seq<Seq<char>>, int) -> bool,
    states: Seq<Seq<Seq<char>>>,
) -> bool {
    &&& states.len() > 0
    &&& forall|s: int|
        0 <= s < states.len() - 1 ==> merged_once(first, #[trigger] states[s], states[s + 1])
}

/// Whether the neighbours at `i` make a token, and `x` is its score.
pub open spec fn pair_scores(
    tokens: Seq<Seq<char>>,
    scores: Seq<u32>,
    p: Seq<Seq<char>>,
    i: int,
    x: u32,
) -> bool {
    &&& 0 <= i < p.len() - 1
    &&& exists|id: int| #[trigger] is_last_place(tokens, p[i] + p[i + 1], id) && scores[id] == x
}

/// Whether a pair with score `y` at `j` leaves the way to one with score `x` at
/// `i`: the score at `i` is greater, or it is not smaller and `i` is to the left.
/// A score that is no number compares with none; it leaves the way unless it is
/// the leftmost that may merge.
pub open spec fn leaves_the_way(
    tokens: Seq<Seq<char>>,
    scores: Seq<u32>,
    p: Seq<Seq<char>>,
    i: int,
    x: u32,
    j: int,
    y: u32,
) -> bool {
    if !is_number(x) {
        i <= j
    } else if is_number(y) {
        number_below(y, x) || !number_below(x, y) && i <= j
    } else {
        exists|m: int, z: u32| m < j && #[trigger] pair_scores(tokens, scores, p, m, z)
    }
}

/// Whether the neighbours at `i` are the ones to merge: they make a token, and
/// every other pair that makes one leaves the way.
pub open spec fn scores_first(
    tokens: Seq<Seq<char>>,
    scores: Seq<u32>,
    p: Seq<Seq<char>>,
    i: int,
) -> bool {
    exists|x: u32|
        {
            &&& #[trigger] pair_scores(tokens, scores, p, i, x)
            &&& forall|j: int, y: u32| #[trigger]
                pair_scores(tokens, scores, p, j, y) ==> leaves_the_way(
                    tokens,
                    scores,
                    p,
                    i,
                    x,
                    j,
                    y,
                )
        }
}

/// The order of merges by score.
pub open spec fn by_scores(tokens: Seq<Seq<char>>, scores: Seq<u32>) -> spec_fn(
    Seq<Seq<char>>,
    int,
) -> bool {
    |p: Seq<Seq<char>>, i: int| scores_first(tokens, scores, p, i)
}

/// Whether rule `r` merges the neighbours at `i`: it is the left piece, which has
/// no space in it, a space, and the right piece.
pub open spec fn pair_ranks(rules: Seq<Seq<char>>, p: Seq<Seq<char>>, i: int, r: int) -> bool {
    &&& 0 <= i < p.len() - 1
    &&& !p[i].contains(' ')
    &&& is_last_place(rules, p[i] + seq![' '] + p[i + 1], r)
}

/// Whether the neighbours at `i` are the ones to merge: their rule comes before
/// that of every other pair, or is the same and they stand to the left.
pub open spec fn ranks_first(rules: Seq<Seq<char>>, p: Seq<Seq<char>>, i: int) -> bool {
    exists|r: int|
        {
            &&& #[trigger] pair_ranks(rules, p, i, r)
            &&& forall|j: int, s: int| #[trigger]
                pair_ranks(rules, p, j, s) ==> r < s || r == s && i <= j
        }
}

/// The order of merges by rank.
pub open spec fn by_rank(rules: Seq<Seq<char>>) -> spec_fn(Seq<Seq<char>>, int) -> bool {
    |p: Seq<Seq<char>>, i: int| ranks_first(rules, p, i)
}

/// Whether the token at place `i` is one for byte `b`, and none behind it is.
pub open spec fn is_last_byte(
    tokens: Seq<Seq<char>>,
    types: Seq<i32>,
    b: u8,
    i: int,
) -> bool {
    &&& 0 <= i < tokens.len()
    &&& types[i] == 6
    &&& byte_value(tokens[i]) == Some(b)
    &&& forall|j: int|
        i < j < tokens.len() && #[trigger] types[j] == 6 ==> byte_value(tokens[j]) != Some(b)
}

/// The id of byte `b`: its token, or the unknown one.
pub open spec fn byte_token(t: SpmView, b: u8) -> u32 {
    if exists|i: int| is_last_byte(t.tokens, t.types, b, i) {
        (choose|i: int| is_last_byte(t.tokens, t.types, b, i)) as u32
    } else {
        t.unk
    }
}

/// The ids of a piece: its token, or those of the bytes of its characters.
pub open spec fn piece_tokens(t: SpmView, piece: Seq<char>) -> Seq<u32> {
    if exists|i: int| is_last_place(t.tokens, piece, i) {
        seq![(choose|i: int| is_last_place(t.tokens, piece, i)) as u32]
    } else {
        encode_utf8(piece).map_values(|b: u8| byte_token(t, b))
    }
}

/// The characters of a text, each as a piece of its own.
pub open spec fn characters(s: Seq<char>) -> Seq<Seq<char>> {
    Seq::new(s.len(), |i: int| seq![s[i]])
}

proof fn lemma_one_place(list: Seq<Seq<char>>, piece: Seq<char>, i: int)
    requires
        list.len() <= 0x1_0000_0000,
    ensures
        is_last_place(list, piece, i) <==> place_of(list, piece) == Some(i),
        is_last_place(list, piece, i) ==> number_of(list, piece) == Some(i as u32),
{
    lemma_place(list, piece);
}

proof fn lemma_run(
    p: Seq<Seq<char>>,
    prio: Priority,
    first: spec_fn(Seq<Seq<char>>, int) -> bool,
) -> (states: Seq<Seq<Seq<char>>>)
    requires
        forall|q: Seq<Seq<char>>, i: int| is_best(q, prio, i) ==> #[trigger] first(q, i),
    ensures
        is_run(first, states),
        states[0] == p,
        states.last() == merge_all(p, prio),
    decreases p.len(),
{
    if exists|i: int| is_best(p, prio, i) {
        let i = choose|i: int| is_best(p, prio, i);
        let q = merge_at(p, i);
        let rest = lemma_run(q, prio, first);
        let states = seq![p] + rest;
        assert(first(p, i));
        assert(q =~= joined(p, i));
        assert forall|s: int| 0 <= s < states.len() - 1 implies merged_once(
            first,
            #[trigger] states[s],
            states[s + 1],
        ) by {
            if s == 0 {
                assert(states[1] == rest[0]);
            } else {
                assert(states[s] == rest[s - 1] && states[s + 1] == rest[s - 1 + 1]);
            }
        }
        assert(states.last() == rest.last());
        states
    } else {
        seq![p]
    }
}

proof fn lemma_pair_scores(t: SpmView, p: Seq<Seq<char>>, i: int)
    requires
        t.tokens.len() <= 0x1_0000_0000,
        0 <= i < p.len() - 1,
    ensures
        forall|x: u32| #[trigger]
            pair_scores(t.tokens, t.scores, p, i, x) ==> pair_priority(p, by_score(t.score()), i)
                == Some(score_key(x)),
        pair_priority(p, by_score(t.score()), i) is Some <==> exists|x: u32| #[trigger]
            pair_scores(t.tokens, t.scores, p, i, x),
{
    let piece = p[i] + p[i + 1];
    lemma_place(t.tokens, piece);
    assert(pair_priority(p, by_score(t.score()), i) == (t.score())(piece));
    assert forall|x: u32| #[trigger] pair_scores(t.tokens, t.scores, p, i, x) implies pair_priority(
        p,
        by_score(t.score()),
        i,
    ) == Some(score_key(x)) by {
        let id = choose|id: int| #[trigger] is_last_place(t.tokens, piece, id) && t.scores[id] == x;
        lemma_one_place(t.tokens, piece, id);
    }
    if pair_priority(p, by_score(t.score()), i) is Some {
        let id = place_of(t.tokens, piece)->0;
        assert(is_last_place(t.tokens, piece, id));
        assert(pair_scores(t.tokens, t.scores, p, i, t.scores[id]));
    }
}

proof fn lemma_scores_first(t: SpmView, p: Seq<Seq<char>>, i: int)
    requires
        t.tokens.len() <= 0x1_0000_0000,
        is_best(p, by_score(t.score()), i),
    ensures
        scores_first(t.tokens, t.scores, p, i),
{
    let prio = by_score(t.score());
    assert(0 <= i < p.len() - 1 && pair_priority(p, prio, i) is Some) by {
        if exists|j: int| stays_ahead(p, prio, j) {
            assert(stays_ahead(p, prio, i));
        } else {
            assert(is_top(p, prio, i));
        }
    }
    lemma_pair_scores(t, p, i);
    let x = choose|x: u32| #[trigger] pair_scores(t.tokens, t.scores, p, i, x);
    assert forall|j: int, y: u32| #[trigger]
        pair_scores(t.tokens, t.scores, p, j, y) implies leaves_the_way(
        t.tokens,
        t.scores,
        p,
        i,
        x,
        j,
        y,
    ) by {
        lemma_pair_scores(t, p, j);
        assert(pair_priority(p, prio, j) == Some(score_key(y)));
        if exists|m: int| stays_ahead(p, prio, m) {
            assert(stays_ahead(p, prio, i));
            assert(score_key(x) == unordered());
            assert(i <= j);
        } else {
            assert(is_top(p, prio, i));
            if !is_number(x) {
                assert(score_key(x) == unordered());
                assert(!stays_ahead(p, prio, i));
                let m = choose|m: int|
                    0 <= m < i && (#[trigger] pair_priority(p, prio, m)) is Some;
                lemma_pair_scores(t, p, m);
                let z = choose|z: u32| #[trigger] pair_scores(t.tokens, t.scores, p, m, z);
                assert(pair_priority(p, prio, m) == Some(score_key(z)));
            } else if !is_number(y) {
                assert(score_key(y) == unordered());
                assert(!stays_ahead(p, prio, j));
                let m = choose|m: int|
                    0 <= m < j && (#[trigger] pair_priority(p, prio, m)) is Some;
                lemma_pair_scores(t, p, m);
                let z = choose|z: u32| #[trigger] pair_scores(t.tokens, t.scores, p, m, z);
                assert(m < j && pair_scores(t.tokens, t.scores, p, m, z));
            }
        }
    }
}

/// The scores of a tokenizer compare as the numbers that they are: a key is
/// below another exactly where its number is, so that no two numbers share one,
/// other than the two zeros.
pub proof fn score_keys_are_ordered(x: u32, y: u32)
    requires
        is_number(x),
        is_number(y),
    ensures
        score_key(x) < score_key(y) <==> number_below(x, y),
        score_key(x) == score_key(y) <==> x == y || (x as int % 0x8000_0000 == 0 && y as int
            % 0x8000_0000 == 0),
{
}

/// SentencePiece: a text starts as its characters, with a marker before them and
/// for every space. As long as two neighbours make a token, those merge that make
/// the one of the greatest score, the leftmost of several. What is left becomes
/// the ids: that of the token of a piece, or those of its bytes.
pub proof fn greatest_score_merges_first(t: &Spm, text: &str, ids: Vec<u32>)
    requires
        t@.tokens.len() <= 0x1_0000_0000,
        text@.len() > 0,
        call_ensures(Spm::encode, (t, text), ids),
    ensures
        exists|states: Seq<Seq<Seq<char>>>|
            {
                &&& #[trigger] is_run(by_scores(t@.tokens, t@.scores), states)
                &&& states[0] == characters(
                    seq!['\u{2581}'] + text@.map_values(
                        |c: char|
                            if c == ' ' {
                                '\u{2581}'
                            } else {
                                c
                            },
                    ),
                )
                &&& forall|i: int, x: u32| !#[trigger]
                    pair_scores(t@.tokens, t@.scores, states.last(), i, x)
                &&& ids@ == states.last().map_values(
                    |piece: Seq<char>| piece_tokens(t@, piece),
                ).flatten()
            },
{
    let v = t@;
    let first = by_scores(v.tokens, v.scores);
    let start = singles(marked(text@));
    let prio = by_score(v.score());
    assert forall|q: Seq<Seq<char>>, i: int| is_best(q, prio, i) implies #[trigger] first(q, i) by {
        lemma_scores_first(v, q, i);
    }
    let states = lemma_run(start, prio, first);
    merging_is_complete(start, prio);
    let last = states.last();
    assert forall|i: int, x: u32| !#[trigger] pair_scores(v.tokens, v.scores, last, i, x) by {
        if pair_scores(v.tokens, v.scores, last, i, x) {
            lemma_pair_scores(v, last, i);
        }
    }
    let norm = seq!['\u{2581}'] + text@.map_values(
        |c: char|
            if c == ' ' {
                '\u{2581}'
            } else {
                c
            },
    );
    assert(norm =~= marked(text@));
    assert(start =~= characters(norm));
    let (f, g) = (
        |piece: Seq<char>| piece_tokens(v, piece),
        |piece: Seq<char>| v.piece_ids(piece),
    );
    assert forall|i: int| 0 <= i < last.len() implies f(#[trigger] last[i]) == g(last[i]) by {
        lemma_piece_tokens(v, last[i]);
    }
    assert(last.map_values(f) =~= last.map_values(g));
    assert(is_run(first, states));
}

/// A text without characters has no ids.
pub proof fn no_text_has_no_ids(bpe: &Bpe, spm: &Spm, text: &str, ids: (Vec<u32>, Vec<u32>))
    requires
        text@.len() == 0,
        call_ensures(Bpe::encode, (bpe, text), ids.0),
        call_ensures(Spm::encode, (spm, text), ids.1),
    ensures
        ids.0@.len() == 0,
        ids.1@.len() == 0,
{
    assert(words(text@) =~= seq![]);
    assert(words(text@).map_values(|w: Seq<char>| bpe@.word_ids(w)) =~= seq![]);
}

proof fn lemma_piece_tokens(t: SpmView, piece: Seq<char>)
    requires
        t.tokens.len() <= 0x1_0000_0000,
    ensures
        piece_tokens(t, piece) == t.piece_ids(piece),
{
    lemma_place(t.tokens, piece);
    if exists|i: int| is_last_place(t.tokens, piece, i) {
        let i = choose|i: int| is_last_place(t.tokens, piece, i);
        lemma_one_place(t.tokens, piece, i);
    } else {
        assert(place_of(t.tokens, piece) is None) by {
            if place_of(t.tokens, piece) is Some {
                assert(is_last_place(t.tokens, piece, place_of(t.tokens, piece)->0));
            }
        }
        let bytes = encode_utf8(piece);
        assert forall|k: int| 0 <= k < bytes.len() implies byte_token(t, #[trigger] bytes[k])
            == t.byte_id(bytes[k]) by {
            lemma_byte_token(t, bytes[k]);
        }
        assert(bytes.map_values(|b: u8| byte_token(t, b)) =~= bytes.map_values(
            |b: u8| t.byte_id(b),
        ));
    }
}

proof fn lemma_byte_token(t: SpmView, b: u8)
    requires
        t.tokens.len() <= 0x1_0000_0000,
    ensures
        byte_token(t, b) == t.byte_id(b),
{
    lemma_byte_place(t.tokens, t.types, b);
    if exists|i: int| is_last_byte(t.tokens, t.types, b, i) {
        let i = choose|i: int| is_last_byte(t.tokens, t.types, b, i);
        match byte_place(t.tokens, t.types, b) {
            Some(j) => {
                assert(t.types[i] == 6 && t.types[j] == 6);
                assert(i == j);
            },
            None => {
                assert(t.types[i] == 6);
            },
        }
    } else {
        assert(byte_place(t.tokens, t.types, b) is None) by {
            if byte_place(t.tokens, t.types, b) is Some {
                let j = byte_place(t.tokens, t.types, b)->0;
                assert(is_last_byte(t.tokens, t.types, b, j));
            }
        }
    }
}

proof fn lemma_byte_place(tokens: Seq<Seq<char>>, types: Seq<i32>, b: u8)
    ensures
        match byte_place(tokens, types, b) {
            Some(i) => is_last_byte(tokens, types, b, i),
            None => forall|j: int|
                0 <= j < tokens.len() && #[trigger] types[j] == 6 ==> byte_value(tokens[j])
                    != Some(b),
        },
    decreases tokens.len(),
{
    if tokens.len() > 0 {
        let (init, n) = (tokens.drop_last(), tokens.len() - 1);
        lemma_byte_place(init, types, b);
        assert(forall|j: int| 0 <= j < n ==> tokens[j] == #[trigger] init[j]);
    }
}

proof fn lemma_pair_ranks(t: BpeView, p: Seq<Seq<char>>, i: int)
    requires
        t.rules.len() <= 0x1_0000_0000,
        0 <= i < p.len() - 1,
    ensures
        forall|r: int| #[trigger]
            pair_ranks(t.rules, p, i, r) ==> pair_priority(p, t.priority(), i) == Some(-r),
        pair_priority(p, t.priority(), i) is Some <==> exists|r: int| #[trigger]
            pair_ranks(t.rules, p, i, r),
{
    let rule = p[i] + seq![' '] + p[i + 1];
    assert(p[i].push(' ') + p[i + 1] =~= rule);
    lemma_place(t.rules, rule);
    assert(pair_priority(p, t.priority(), i) == (match rank_of(t.rules, p[i], p[i + 1]) {
        Some(r) => Some(-(r as int)),
        None => None,
    }));
    assert forall|r: int| #[trigger] pair_ranks(t.rules, p, i, r) implies pair_priority(
        p,
        t.priority(),
        i,
    ) == Some(-r) by {
        lemma_one_place(t.rules, rule, r);
    }
    if pair_priority(p, t.priority(), i) is Some {
        assert(pair_ranks(t.rules, p, i, place_of(t.rules, rule)->0));
    }
}

proof fn lemma_ranks_first(t: BpeView, p: Seq<Seq<char>>, i: int)
    requires
        t.rules.len() <= 0x1_0000_0000,
        is_best(p, t.priority(), i),
    ensures
        ranks_first(t.rules, p, i),
{
    crate::tokenizer::bpe::lemma_ranks_ordered(t);
    top_is_best(p, t.priority(), i);
    lemma_pair_ranks(t, p, i);
    let r = choose|r: int| #[trigger] pair_ranks(t.rules, p, i, r);
    assert forall|j: int, s: int| #[trigger] pair_ranks(t.rules, p, j, s) implies r < s || r == s
        && i <= j by {
        lemma_pair_ranks(t, p, j);
        assert(pair_priority(p, t.priority(), j) is Some);
    }
}

/// The id of a piece: its token, or the unknown one.
pub open spec fn piece_token(t: BpeView, piece: Seq<char>) -> u32 {
    if exists|i: int| is_last_place(t.tokens, piece, i) {
        (choose|i: int| is_last_place(t.tokens, piece, i)) as u32
    } else {
        t.unk
    }
}

/// Whether `ids` are those of one unit of a text: it starts as the characters of
/// its bytes; as long as a rule merges two neighbours, those merge whose rule
/// comes first, the leftmost of several; and what is left are the tokens.
pub open spec fn unit_has_ids(t: BpeView, unit: Seq<char>, ids: Seq<u32>) -> bool {
    exists|states: Seq<Seq<Seq<char>>>|
        {
            &&& #[trigger] is_run(by_rank(t.rules), states)
            &&& states[0] == characters(encode_utf8(unit).map_values(|b: u8| symbol(b)))
            &&& forall|i: int, r: int| !#[trigger] pair_ranks(t.rules, states.last(), i, r)
            &&& ids == states.last().map_values(|piece: Seq<char>| piece_token(t, piece))
        }
}

/// Byte-level BPE: the ids of a text are those of its units, one unit after the
/// other, and within a unit the rule of the lowest rank merges first.
pub proof fn lowest_rank_merges_first(t: &Bpe, text: &str, ids: Vec<u32>)
    requires
        t@.tokens.len() <= 0x1_0000_0000,
        t@.rules.len() <= 0x1_0000_0000,
        call_ensures(Bpe::encode, (t, text), ids),
    ensures
        exists|parts: Seq<Seq<u32>>|
            {
                &&& parts.len() == words(text@).len()
                &&& forall|w: int|
                    0 <= w < parts.len() ==> unit_has_ids(t@, words(text@)[w], #[trigger] parts[w])
                &&& ids@ == #[trigger] parts.flatten()
            },
{
    let (v, units) = (t@, words(text@));
    let parts = units.map_values(|w: Seq<char>| v.word_ids(w));
    assert forall|w: int| 0 <= w < parts.len() implies unit_has_ids(
        v,
        units[w],
        #[trigger] parts[w],
    ) by {
        lemma_unit(v, units[w]);
    }
    assert(ids@ == parts.flatten());
}

pub(crate) proof fn lemma_rank_run(t: BpeView, word: Seq<char>) -> (states: Seq<
    Seq<Seq<char>>,
>)
    requires
        t.rules.len() <= 0x1_0000_0000,
    ensures
        is_run(by_rank(t.rules), states),
        states[0] == characters(word),
        forall|i: int, r: int| !#[trigger] pair_ranks(t.rules, states.last(), i, r),
        states.last() == t.pieces(word),
{
    let first = by_rank(t.rules);
    let start = singles(word);
    let prio = t.priority();
    assert forall|q: Seq<Seq<char>>, i: int| is_best(q, prio, i) implies #[trigger] first(q, i) by {
        lemma_ranks_first(t, q, i);
    }
    let states = lemma_run(start, prio, first);
    merging_is_complete(start, prio);
    let last = states.last();
    assert forall|i: int, r: int| !#[trigger] pair_ranks(t.rules, last, i, r) by {
        if pair_ranks(t.rules, last, i, r) {
            lemma_pair_ranks(t, last, i);
        }
    }
    assert(start =~= characters(word));
    states
}

proof fn lemma_unit(t: BpeView, unit: Seq<char>)
    requires
        t.tokens.len() <= 0x1_0000_0000,
        t.rules.len() <= 0x1_0000_0000,
    ensures
        unit_has_ids(t, unit, t.word_ids(unit)),
{
    let first = by_rank(t.rules);
    let states = lemma_rank_run(t, mapped(unit));
    assert(mapped(unit) =~= encode_utf8(unit).map_values(|b: u8| symbol(b)));
    let last = states.last();
    let (f, g) = (|piece: Seq<char>| piece_token(t, piece), |piece: Seq<char>| t.id(piece));
    assert forall|i: int| 0 <= i < last.len() implies f(#[trigger] last[i]) == g(last[i]) by {
        let piece = last[i];
        lemma_place(t.tokens, piece);
        if exists|j: int| is_last_place(t.tokens, piece, j) {
            let j = choose|j: int| is_last_place(t.tokens, piece, j);
            lemma_one_place(t.tokens, piece, j);
        } else if place_of(t.tokens, piece) is Some {
            assert(is_last_place(t.tokens, piece, place_of(t.tokens, piece)->0));
        }
    }
    assert(last.map_values(f) =~= last.map_values(g));
    assert(is_run(first, states));
}

} // verus!
