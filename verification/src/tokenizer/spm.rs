//! SentencePiece.

use vstd::hash_map::StringHashMap;
use vstd::multiset::Multiset;
use vstd::prelude::*;
use vstd::slice::slice_to_vec;
use vstd::utf8::encode_utf8;

use crate::bits::{is_nan, nan, order_key, order_of};
use crate::gguf::format::{texts, viewed, MetaValue, MetaView};
use crate::gguf::GgufFile;
use crate::text::{lossy_text, slice_str, text_lossy};
use crate::tokenizer::bytes::{byte_value, parse_byte_token};
use crate::tokenizer::candidates::{
    all_cuts, all_ok, by_score, candidate, holds_all, holds_pair, lemma_best, lemma_candidate_ok,
    lemma_exhausted, lemma_holds_after, lemma_live, lemma_ok_after, lemma_pair_text, pair_text,
    scores_fit, seed, Score,
};
use crate::tokenizer::error::TokenizerError;
use crate::tokenizer::merge::{
    is_best, is_ordered, merge_all, merge_done, merge_step, pair_priority, singles, stays_ahead,
    top_is_best, unordered, Priority,
};
use crate::tokenizer::queue::{no_better, Bigram, Queue};
use crate::tokenizer::symbols::{
    chain, is_cut, join, lemma_bytes_bound, lemma_bytes_grow, lemma_cut, lemma_symbol, pieces,
    Symbol, NONE,
};
use crate::tokenizer::vocab::{copied, lemma_place, number, number_of, numbering, numbers};

verus! {

/// The type of control tokens.
pub const TYPE_CONTROL: i32 = 3;

/// The type of byte tokens.
pub const TYPE_BYTE: i32 = 6;

/// The SentencePiece space marker, U+2581.
pub const SPACE: char = '\u{2581}';

/// What a SentencePiece tokenizer consists of: the tokens by id, with their
/// scores (single-precision bit patterns) and types, the ids of the special
/// tokens, and whether a prompt starts with the first of them.
#[verifier::ext_equal]
pub struct SpmView {
    pub tokens: Seq<Seq<char>>,
    pub scores: Seq<u32>,
    pub types: Seq<i32>,
    pub bos: u32,
    pub eos: u32,
    pub unk: u32,
    pub add_bos: bool,
}

/// A text as it is merged: with a space before it, and markers for spaces.
pub open spec fn marked(text: Seq<char>) -> Seq<char> {
    seq![SPACE] + text.map_values(
        |c: char|
            if c == ' ' {
                SPACE
            } else {
                c
            },
    )
}

/// A token as it is shown: with spaces for markers.
pub open spec fn unmarked(token: Seq<char>) -> Seq<char> {
    token.map_values(
        |c: char|
            if c == SPACE {
                ' '
            } else {
                c
            },
    )
}

/// The place of the token for byte `b` among tokens with types; of several,
/// the last.
pub open spec fn byte_place(tokens: Seq<Seq<char>>, types: Seq<i32>, b: u8) -> Option<int>
    decreases tokens.len(),
{
    if tokens.len() == 0 {
        None
    } else {
        let n = tokens.len() - 1;
        if types[n] == TYPE_BYTE && byte_value(tokens[n]) == Some(b) {
            Some(n)
        } else {
            byte_place(tokens.drop_last(), types, b)
        }
    }
}

/// A score as its place in the numeric order. One that is no number compares
/// with no other.
pub open spec fn score_key(bits: u32) -> int {
    if is_nan(bits) {
        unordered()
    } else {
        order_key(bits)
    }
}

/// Computes [`score_key`].
fn score_place(bits: u32) -> (k: i64)
    ensures
        k == score_key(bits),
{
    if nan(bits) {
        -0x1_0000_0000
    } else {
        order_of(bits)
    }
}

/// Whether all scores are numbers.
fn all_numbers(scores: &Vec<u32>) -> (b: bool)
    ensures
        b ==> forall|i: int| 0 <= i < scores@.len() ==> !is_nan(#[trigger] scores@[i]),
{
    let mut i: usize = 0;
    while i < scores.len()
        invariant
            i <= scores@.len(),
            forall|j: int| 0 <= j < i ==> !is_nan(#[trigger] scores@[j]),
        decreases scores@.len() - i,
    {
        if nan(scores[i]) {
            return false;
        }
        i += 1;
    }
    true
}

impl SpmView {
    /// The score of a piece that is in the vocabulary.
    pub open spec fn score(self) -> Score {
        |piece: Seq<char>|
            match number_of(self.tokens, piece) {
                Some(id) => Some(score_key(self.scores[id as int])),
                None => None,
            }
    }

    /// The pieces of a text: neighbours merge as long as they make a piece of
    /// the vocabulary, the piece of the highest score first.
    pub open spec fn pieces(self, text: Seq<char>) -> Seq<Seq<char>> {
        merge_all(singles(marked(text)), by_score(self.score()))
    }

    /// The id of the token for a byte, or that of the unknown token.
    pub open spec fn byte_id(self, b: u8) -> u32 {
        match byte_place(self.tokens, self.types, b) {
            Some(i) => number(i),
            None => self.unk,
        }
    }

    /// The ids of a piece: its own, or those of its bytes.
    pub open spec fn piece_ids(self, piece: Seq<char>) -> Seq<u32> {
        match number_of(self.tokens, piece) {
            Some(id) => seq![id],
            None => encode_utf8(piece).map_values(|b: u8| self.byte_id(b)),
        }
    }

    /// The ids of a text.
    pub open spec fn encode(self, text: Seq<char>) -> Seq<u32> {
        if text.len() == 0 {
            seq![]
        } else {
            self.pieces(text).flat_map(|p: Seq<char>| self.piece_ids(p))
        }
    }

    /// The bytes that an id stands for: a byte token for its byte, a control
    /// token or an id beyond the vocabulary for none, any other token for its
    /// text.
    pub open spec fn id_bytes(self, id: u32) -> Seq<u8> {
        if id >= self.tokens.len() {
            seq![]
        } else if self.types[id as int] == TYPE_BYTE {
            match byte_value(self.tokens[id as int]) {
                Some(b) => seq![b],
                None => seq![],
            }
        } else if self.types[id as int] == TYPE_CONTROL {
            seq![]
        } else {
            encode_utf8(unmarked(self.tokens[id as int]))
        }
    }

    /// The bytes that a list of ids stands for.
    pub open spec fn bytes(self, ids: Seq<u32>) -> Seq<u8> {
        ids.flat_map(|id: u32| self.id_bytes(id))
    }

    /// The text of a list of ids.
    pub open spec fn decode(self, ids: Seq<u32>) -> Seq<char> {
        lossy_text(self.bytes(ids))
    }
}

/// The tokenizer that tokens with scores and types make; the lists must be
/// equally long.
pub open spec fn spm_from(v: SpmView) -> Result<SpmView, TokenizerError> {
    if v.scores.len() != v.tokens.len() || v.types.len() != v.tokens.len() {
        Err(
            TokenizerError::LengthsDisagree {
                tokens: v.tokens.len() as usize,
                scores: v.scores.len() as usize,
                types: v.types.len() as usize,
            },
        )
    } else {
        Ok(v)
    }
}

/// The tokenizer that the metadata of a file describes.
pub open spec fn spm_of(g: GgufFile) -> Result<SpmView, TokenizerError> {
    match g.strs_value("tokenizer.ggml.tokens"@) {
        None => Err(TokenizerError::MissingTokens),
        Some(tokens) => match g.f32s_value("tokenizer.ggml.scores"@) {
            None => Err(TokenizerError::MissingScores),
            Some(scores) => match g.i32s_value("tokenizer.ggml.token_type"@) {
                None => Err(TokenizerError::MissingTokenTypes),
                Some(types) => match g.u32_value("tokenizer.ggml.bos_token_id"@) {
                    None => Err(TokenizerError::MissingBosId),
                    Some(bos) => match g.u32_value("tokenizer.ggml.eos_token_id"@) {
                        None => Err(TokenizerError::MissingEosId),
                        Some(eos) => spm_from(
                            SpmView {
                                tokens,
                                scores,
                                types,
                                bos,
                                eos,
                                unk: match g.u32_value("tokenizer.ggml.unknown_token_id"@) {
                                    Some(id) => id,
                                    None => 0,
                                },
                                add_bos: g.value("tokenizer.ggml.add_bos_token"@) == Some(
                                    MetaView::Bool(true),
                                ),
                            },
                        ),
                    },
                },
            },
        },
    }
}

/// A SentencePiece tokenizer: a vocabulary of scored pieces, with `▁` marking
/// spaces and `<0xXX>` byte tokens for characters that it does not contain.
pub struct Spm {
    id_to_token: Vec<String>,
    token_to_id: StringHashMap<u32>,
    scores: Vec<u32>,
    token_type: Vec<i32>,
    /// Id of the `<0xXX>` token by byte.
    byte_to_id: [Option<u32>; 256],
    /// Whether all scores compare with each other.
    ordered: bool,
    bos: u32,
    eos: u32,
    unk: u32,
    add_bos: bool,
}

impl View for Spm {
    type V = SpmView;

    closed spec fn view(&self) -> SpmView {
        SpmView {
            tokens: texts(self.id_to_token@),
            scores: self.scores@,
            types: self.token_type@,
            bos: self.bos,
            eos: self.eos,
            unk: self.unk,
            add_bos: self.add_bos,
        }
    }
}

/// Whether a table holds the byte tokens among tokens with types.
spec fn byte_table(
    table: Seq<Option<u32>>,
    tokens: Seq<Seq<char>>,
    types: Seq<i32>,
) -> bool {
    forall|b: u8|
        #![trigger byte_place(tokens, types, b)]
        table[b as int] == (match byte_place(tokens, types, b) {
            Some(i) => Some(number(i)),
            None => None,
        })
}

/// The byte tokens among tokens with types.
fn byte_ids(tokens: &Vec<String>, types: &Vec<i32>) -> (table: [Option<u32>; 256])
    requires
        tokens@.len() == types@.len(),
    ensures
        byte_table(table@, texts(tokens@), types@),
{
    let mut table: [Option<u32>; 256] = [None; 256];
    let ghost all = texts(tokens@);
    let mut i: usize = 0;
    assert(all.take(0) =~= seq![]);
    while i < tokens.len()
        invariant
            i <= tokens@.len(),
            tokens@.len() == types@.len(),
            all == texts(tokens@),
            byte_table(table@, all.take(i as int), types@),
        decreases tokens@.len() - i,
    {
        let ghost before = table@;
        proof {
            assert(all.take(i + 1).drop_last() =~= all.take(i as int));
            assert(all.take(i + 1)[i as int] == tokens@[i as int]@);
            assert forall|b: u8| #![trigger before[b as int]] before[b as int] == (match byte_place(
                all.take(i as int),
                types@,
                b,
            ) {
                Some(i) => Some(number(i)),
                None => None,
            }) by {}
        }
        if types[i] == TYPE_BYTE {
            match parse_byte_token(tokens[i].as_str()) {
                Some(b) => {
                    table[b as usize] = Some((i as u64 % 0x1_0000_0000) as u32);
                },
                None => {},
            }
        }
        assert(byte_table(table@, all.take(i + 1), types@));
        i += 1;
    }
    assert(all.take(i as int) =~= all);
    table
}

impl Spm {
    #[verifier::type_invariant]
    spec fn wf(self) -> bool {
        &&& numbers(self.token_to_id@, texts(self.id_to_token@))
        &&& self.scores@.len() == self.id_to_token@.len()
        &&& self.token_type@.len() == self.id_to_token@.len()
        &&& byte_table(self.byte_to_id@, texts(self.id_to_token@), self.token_type@)
        &&& self.ordered ==> forall|i: int|
            0 <= i < self.scores@.len() ==> !is_nan(#[trigger] self.scores@[i])
    }

    /// Builds a tokenizer from its tokens, by id, and their scores and types.
    /// Fails if the three lists differ in length.
    pub fn build(
        tokens: Vec<String>,
        scores: Vec<u32>,
        token_type: Vec<i32>,
        bos: u32,
        eos: u32,
        unk: u32,
        add_bos: bool,
    ) -> (r: Result<Spm, TokenizerError>)
        ensures
            viewed(r) == spm_from(
                (SpmView {
                    tokens: texts(tokens@),
                    scores: scores@,
                    types: token_type@,
                    bos,
                    eos,
                    unk,
                    add_bos,
                }),
            ),
    {
        if scores.len() != tokens.len() || token_type.len() != tokens.len() {
            return Err(
                TokenizerError::LengthsDisagree {
                    tokens: tokens.len(),
                    scores: scores.len(),
                    types: token_type.len(),
                },
            );
        }
        let token_to_id: StringHashMap<u32> = numbering(tokens.as_slice());
        let byte_to_id: [Option<u32>; 256] = byte_ids(&tokens, &token_type);
        let ordered: bool = all_numbers(&scores);
        Ok(
            Spm {
                id_to_token: tokens,
                token_to_id,
                scores,
                token_type,
                byte_to_id,
                ordered,
                bos,
                eos,
                unk,
                add_bos,
            },
        )
    }

    /// Builds a tokenizer from the metadata of a file.
    pub fn from_gguf(g: &GgufFile) -> (r: Result<Spm, TokenizerError>)
        ensures
            viewed(r) == spm_of(*g),
    {
        let tokens: Vec<String> = match g.get_arr_str("tokenizer.ggml.tokens") {
            Some(v) => copied(v),
            None => return Err(TokenizerError::MissingTokens),
        };
        let scores: Vec<u32> = match g.get_arr_f32("tokenizer.ggml.scores") {
            Some(v) => slice_to_vec(v),
            None => return Err(TokenizerError::MissingScores),
        };
        let token_type: Vec<i32> = match g.get_arr_i32("tokenizer.ggml.token_type") {
            Some(v) => slice_to_vec(v),
            None => return Err(TokenizerError::MissingTokenTypes),
        };
        let bos: u32 = match g.get_u32("tokenizer.ggml.bos_token_id") {
            Some(id) => id,
            None => return Err(TokenizerError::MissingBosId),
        };
        let eos: u32 = match g.get_u32("tokenizer.ggml.eos_token_id") {
            Some(id) => id,
            None => return Err(TokenizerError::MissingEosId),
        };
        let unk: u32 = match g.get_u32("tokenizer.ggml.unknown_token_id") {
            Some(id) => id,
            None => 0,
        };
        let add_bos: bool = match g.metadata("tokenizer.ggml.add_bos_token") {
            Some(MetaValue::Bool(b)) => *b,
            _ => false,
        };
        Self::build(tokens, scores, token_type, bos, eos, unk, add_bos)
    }

    /// The id of a piece.
    pub fn piece_id(&self, piece: &str) -> (id: Option<u32>)
        ensures
            id == number_of(self@.tokens, piece@),
            id is Some ==> id->0 < self@.tokens.len(),
    {
        proof {
            use_type_invariant(self);
            lemma_place(self@.tokens, piece@);
            assert(number_of(self@.tokens, piece@) == (if self.token_to_id@.contains_key(piece@) {
                Some(self.token_to_id@[piece@])
            } else {
                None
            }));
        }
        match self.token_to_id.get(piece) {
            Some(id) => Some(*id),
            None => None,
        }
    }

    /// The score of the piece that the symbols `left` and `right` make, if it
    /// is in the vocabulary.
    fn pair_score(
        &self,
        syms: &Vec<Symbol>,
        norm: &str,
        left: usize,
        right: usize,
        Ghost(cuts): Ghost<Seq<int>>,
        Ghost(k): Ghost<int>,
    ) -> (r: Option<i64>)
        requires
            chain(syms@, norm@, cuts),
            0 <= k < cuts.len() - 2,
            left == cuts[k],
            right == cuts[k + 1],
        ensures
            (self@.score())(pair_text(norm@, cuts, k)) == (match r {
                Some(x) => Some(x as int),
                None => None,
            }),
    {
        proof {
            use_type_invariant(self);
            lemma_symbol(syms@, norm@, cuts, k);
            lemma_symbol(syms@, norm@, cuts, k + 1);
            lemma_bytes_grow(norm@, cuts[k], cuts[k + 2]);
        }
        let start: usize = syms[left].start;
        let end: usize = syms[right].start + syms[right].len;
        let piece: &str = slice_str(norm, start, end, Ghost(cuts[k]), Ghost(cuts[k + 2]));
        match self.piece_id(piece) {
            Some(id) => Some(score_place(self.scores[id as usize])),
            None => None,
        }
    }

    /// Offers the bigram of the symbols `left` and `right` to the queue: it is
    /// a candidate if together they make a piece of the vocabulary.
    fn try_bigram(
        &self,
        queue: &mut Queue,
        syms: &Vec<Symbol>,
        norm: &str,
        left: usize,
        right: usize,
        Ghost(cuts): Ghost<Seq<int>>,
        Ghost(k): Ghost<int>,
    )
        requires
            old(queue).wf(),
            chain(syms@, norm@, cuts),
            left != NONE && right != NONE ==> 0 <= k < cuts.len() - 2 && left == cuts[k] && right
                == cuts[k + 1],
        ensures
            final(queue).wf(),
            final(queue)@ == (if left == NONE || right == NONE {
                old(queue)@
            } else {
                match (self@.score())(pair_text(norm@, cuts, k)) {
                    Some(x) => old(queue)@.insert(candidate(norm@, cuts, k, x)),
                    None => old(queue)@,
                }
            }),
    {
        if left == NONE || right == NONE {
            return;
        }
        match self.pair_score(syms, norm, left, right, Ghost(cuts), Ghost(k)) {
            Some(score) => {
                proof {
                    lemma_symbol(syms@, norm@, cuts, k);
                    lemma_symbol(syms@, norm@, cuts, k + 1);
                }
                let size: usize = syms[right].start + syms[right].len - syms[left].start;
                queue.push(Bigram { left, right, score, size });
            },
            None => {},
        }
    }

    /// Merges the two symbols of a bigram that was taken out of the queue and
    /// is still alive, and offers the bigrams that this makes.
    fn merge_bigram(
        &self,
        queue: &mut Queue,
        syms: &mut Vec<Symbol>,
        norm: &str,
        e: Bigram,
        Ghost(cuts): Ghost<Seq<int>>,
        Ghost(before): Ghost<Multiset<Bigram>>,
    ) -> (rest: Ghost<Seq<int>>)
        requires
            old(queue).wf(),
            norm@.len() <= usize::MAX,
            scores_fit(self@.score()),
            is_ordered(by_score(self@.score())),
            chain(old(syms)@, norm@, cuts),
            all_ok(norm@, old(syms)@, self@.score(), before),
            holds_all(norm@, cuts, self@.score(), before),
            before.contains(e),
            forall|x: Bigram| #[trigger] before.contains(x) ==> no_better(x, e),
            old(queue)@ == before.remove(e),
            old(syms)@[e.left as int].len > 0,
            old(syms)@[e.right as int].len > 0,
            old(syms)@[e.left as int].len + old(syms)@[e.right as int].len == e.size,
        ensures
            final(queue).wf(),
            chain(final(syms)@, norm@, rest@),
            all_ok(norm@, final(syms)@, self@.score(), final(queue)@),
            holds_all(norm@, rest@, self@.score(), final(queue)@),
            merge_all(pieces(norm@, rest@), by_score(self@.score())) == merge_all(
                pieces(norm@, cuts),
                by_score(self@.score()),
            ),
            rest@.len() == cuts.len() - 1,
            final(queue)@.len() <= before.len() + 1,
    {
        let ghost s = norm@;
        let ghost score = self@.score();
        let ghost old_syms = syms@;
        let ghost popped = queue@;
        let ghost k = lemma_live(s, syms@, cuts, score, e);
        let ghost rest = cuts.remove(k + 1);
        proof {
            lemma_best(s, cuts, score, before, e, k);
            top_is_best(pieces(s, cuts), by_score(score), k);
            merge_step(pieces(s, cuts), by_score(score), k);
            lemma_symbol(syms@, s, cuts, k);
            lemma_symbol(syms@, s, cuts, k + 1);
            lemma_popped(before, e);
        }
        join(syms, e.left, e.right, Ghost(s), Ghost(cuts), Ghost(k));
        proof {
            assert forall|x: Bigram| #[trigger] popped.contains(x) implies before.contains(x) by {}
            assert(all_ok(s, old_syms, score, popped));
            lemma_ok_after(s, old_syms, syms@, score, popped, e.left, e.right);
            lemma_symbol(syms@, s, rest, k);
        }
        let (prev, next) = (syms[e.left].prev, syms[e.left].next);
        self.try_bigram(queue, syms, norm, prev, e.left, Ghost(rest), Ghost(k - 1));
        let ghost middle = queue@;
        self.try_bigram(queue, syms, norm, e.left, next, Ghost(rest), Ghost(k));
        proof {
            lemma_requeued(s, syms@, cuts, score, before, middle, queue@, e, k);
        }
        Ghost(rest)
    }

    /// Merges the symbols of a text, the bigram of the highest score first,
    /// until none may merge. All scores must compare.
    fn merge_by_queue(&self, norm: &str) -> (r: (Vec<Symbol>, Ghost<Seq<int>>))
        requires
            norm@.len() > 0,
            is_ordered(by_score(self@.score())),
        ensures
            chain(r.0@, norm@, r.1@),
            pieces(norm@, r.1@) == merge_all(singles(norm@), by_score(self@.score())),
    {
        let ghost s = norm@;
        let ghost score = self@.score();
        let ghost prio = by_score(score);
        let ghost mut cuts = all_cuts(s.len() as int);
        let mut syms: Vec<Symbol> = seed(norm);
        let mut queue: Queue = Queue::new();
        proof {
            lemma_bytes_bound(s, s.len() as int);
            assert(scores_fit(score));
        }
        let mut j: usize = 1;
        while j < syms.len()
            invariant
                s == norm@,
                score == self@.score(),
                scores_fit(score),
                chain(syms@, s, cuts),
                cuts == all_cuts(s.len() as int),
                1 <= j <= syms@.len(),
                syms@.len() == s.len(),
                s.len() <= usize::MAX,
                queue.wf(),
                all_ok(s, syms@, score, queue@),
                forall|k: int|
                    0 <= k < j - 1 ==> #[trigger] holds_pair(s, cuts, score, queue@, k),
            decreases syms@.len() - j,
        {
            let ghost before = queue@;
            self.try_bigram(&mut queue, &syms, norm, j - 1, j, Ghost(cuts), Ghost(j - 1));
            proof {
                lemma_offered(s, syms@, cuts, score, before, queue@, j - 1);
                assert forall|k: int| 0 <= k < j implies #[trigger] holds_pair(
                    s,
                    cuts,
                    score,
                    queue@,
                    k,
                ) by {
                    if k < j - 1 {
                        assert(holds_pair(s, cuts, score, before, k));
                    }
                }
            }
            j += 1;
        }
        assert(holds_all(s, cuts, score, queue@));
        loop
            invariant
                s == norm@,
                score == self@.score(),
                scores_fit(score),
                is_ordered(prio),
                prio == by_score(score),
                chain(syms@, s, cuts),
                s.len() <= usize::MAX,
                queue.wf(),
                all_ok(s, syms@, score, queue@),
                holds_all(s, cuts, score, queue@),
                merge_all(pieces(s, cuts), prio) == merge_all(singles(s), prio),
            ensures
                chain(syms@, s, cuts),
                pieces(s, cuts) == merge_all(singles(s), prio),
            decreases queue@.len() + 3 * cuts.len(),
        {
            let ghost before = queue@;
            let e: Bigram = match queue.pop() {
                None => {
                    proof {
                        lemma_exhausted(s, cuts, score, queue@);
                        merge_done(pieces(s, cuts), prio);
                    }
                    break;
                },
                Some(e) => e,
            };
            proof {
                lemma_popped(before, e);
                assert(before.contains(e));
            }
            let (ll, rl) = (syms[e.left].len, syms[e.right].len);
            if ll == 0 || rl == 0 || rl > e.size || ll != e.size - rl {
                proof {
                    lemma_stale(s, syms@, cuts, score, before, e);
                }
                continue;
            }
            let rest: Ghost<Seq<int>> = self.merge_bigram(
                &mut queue,
                &mut syms,
                norm,
                e,
                Ghost(cuts),
                Ghost(before),
            );
            proof {
                cuts = rest@;
            }
        }
        (syms, Ghost(cuts))
    }

    /// The symbol of the pair to merge, and its right neighbour, if any pair
    /// may merge: the pair that is ahead behind the last symbol.
    fn pair_ahead(&self, syms: &Vec<Symbol>, norm: &str, Ghost(cuts): Ghost<Seq<int>>) -> (r: (
        Option<(usize, usize)>,
        Ghost<int>,
    ))
        requires
            chain(syms@, norm@, cuts),
        ensures
            match r.0 {
                Some((left, right)) => {
                    &&& 0 <= r.1@ < cuts.len() - 2
                    &&& left == cuts[r.1@]
                    &&& right == cuts[r.1@ + 1]
                    &&& is_best(pieces(norm@, cuts), by_score(self@.score()), r.1@)
                },
                None => forall|k: int|
                    0 <= k < pieces(norm@, cuts).len() - 1 ==> (#[trigger] pair_priority(
                        pieces(norm@, cuts),
                        by_score(self@.score()),
                        k,
                    )) is None,
            },
    {
        let ghost (p, prio) = (pieces(norm@, cuts), by_score(self@.score()));
        let ghost (mut k, mut best, mut first): (int, int, int) = (0, 0, 0);
        let mut ahead: Option<(usize, usize, i64)> = None;
        let mut at: usize = 0;
        proof {
            lemma_symbol(syms@, norm@, cuts, 0);
        }
        let mut next: usize = syms[0].next;
        while next != NONE
            invariant
                chain(syms@, norm@, cuts),
                p == pieces(norm@, cuts),
                prio == by_score(self@.score()),
                0 <= k <= p.len() - 1,
                at == cuts[k],
                next == syms@[at as int].next,
                next != NONE ==> k < p.len() - 1 && next == cuts[k + 1],
                next == NONE ==> k == p.len() - 1,
                match ahead {
                    Some((left, right, x)) => {
                        &&& 0 <= first <= best < k
                        &&& left == cuts[best]
                        &&& right == cuts[best + 1]
                        &&& leads_by(p, prio, k, first, best, x as int)
                    },
                    None => forall|j: int|
                        0 <= j < k ==> (#[trigger] pair_priority(p, prio, j)) is None,
                },
            decreases p.len() - k,
        {
            proof {
                lemma_symbol(syms@, norm@, cuts, k);
                lemma_symbol(syms@, norm@, cuts, k + 1);
                lemma_pair_text(norm@, cuts, self@.score(), k);
            }
            let score: Option<i64> = self.pair_score(
                syms,
                norm,
                at,
                next,
                Ghost(cuts),
                Ghost(k),
            );
            match (score, ahead) {
                (Some(x), None) => {
                    ahead = Some((at, next, x));
                    proof {
                        best = k;
                        first = k;
                    }
                },
                (Some(x), Some((_, _, y))) => {
                    if y != -0x1_0000_0000 && x > y {
                        ahead = Some((at, next, x));
                        proof {
                            best = k;
                        }
                    }
                },
                (None, _) => {},
            }
            at = next;
            next = syms[at].next;
            proof {
                k = k + 1;
            }
        }
        match ahead {
            Some((left, right, x)) => {
                proof {
                    lemma_leader_is_best(p, prio, first, best, x as int);
                }
                (Some((left, right)), Ghost(best))
            },
            None => (None, Ghost(0)),
        }
    }

    /// Merges the symbols of a text, one pair after the other, until none may
    /// merge.
    fn merge_by_scan(&self, norm: &str) -> (r: (Vec<Symbol>, Ghost<Seq<int>>))
        requires
            norm@.len() > 0,
        ensures
            chain(r.0@, norm@, r.1@),
            pieces(norm@, r.1@) == merge_all(singles(norm@), by_score(self@.score())),
    {
        let ghost s = norm@;
        let ghost prio = by_score(self@.score());
        let ghost mut cuts = all_cuts(s.len() as int);
        let mut syms: Vec<Symbol> = seed(norm);
        loop
            invariant
                s == norm@,
                prio == by_score(self@.score()),
                chain(syms@, s, cuts),
                merge_all(pieces(s, cuts), prio) == merge_all(singles(s), prio),
            ensures
                chain(syms@, s, cuts),
                pieces(s, cuts) == merge_all(singles(s), prio),
            decreases cuts.len(),
        {
            let (pair, k) = self.pair_ahead(&syms, norm, Ghost(cuts));
            match pair {
                None => {
                    proof {
                        merge_done(pieces(s, cuts), prio);
                    }
                    break;
                },
                Some((left, right)) => {
                    proof {
                        merge_step(pieces(s, cuts), prio, k@);
                    }
                    join(&mut syms, left, right, Ghost(s), Ghost(cuts), k);
                    proof {
                        cuts = cuts.remove(k@ + 1);
                    }
                },
            }
        }
        (syms, Ghost(cuts))
    }

    /// Merges the symbols of a text until none may merge.
    fn merge_symbols(&self, norm: &str) -> (r: (Vec<Symbol>, Ghost<Seq<int>>))
        requires
            norm@.len() > 0,
        ensures
            chain(r.0@, norm@, r.1@),
            pieces(norm@, r.1@) == merge_all(singles(norm@), by_score(self@.score())),
    {
        if self.ordered {
            proof {
                use_type_invariant(self);
                lemma_scores_ordered(self@);
            }
            self.merge_by_queue(norm)
        } else {
            self.merge_by_scan(norm)
        }
    }

    /// Appends the ids of one piece.
    fn emit(&self, piece: &str, ids: &mut Vec<u32>)
        ensures
            final(ids)@ == old(ids)@ + self@.piece_ids(piece@),
    {
        match self.piece_id(piece) {
            Some(id) => {
                ids.push(id);
                assert(ids@ =~= old(ids)@ + seq![id]);
            },
            None => {
                proof {
                    use_type_invariant(self);
                }
                let ghost before = ids@;
                let ghost f = |b: u8| self@.byte_id(b);
                let bytes: &[u8] = piece.as_bytes();
                let mut i: usize = 0;
                assert(bytes@.take(0).map_values(f) =~= seq![]);
                while i < bytes.len()
                    invariant
                        self.wf(),
                        f == (|b: u8| self@.byte_id(b)),
                        i <= bytes@.len(),
                        ids@ == before + bytes@.take(i as int).map_values(f),
                    decreases bytes@.len() - i,
                {
                    let b: u8 = bytes[i];
                    assert(self.byte_to_id@[b as int] == (match byte_place(
                        self@.tokens,
                        self@.types,
                        b,
                    ) {
                        Some(i) => Some(number(i)),
                        None => None,
                    }));
                    match self.byte_to_id[b as usize] {
                        Some(id) => ids.push(id),
                        None => ids.push(self.unk),
                    }
                    assert(bytes@.take(i + 1) =~= bytes@.take(i as int).push(b));
                    assert(ids@ =~= before + bytes@.take(i + 1).map_values(f));
                    i += 1;
                }
                assert(bytes@.take(i as int) =~= bytes@);
            },
        }
    }

    /// Walks the symbols that are left and lists their ids.
    fn emit_all(&self, norm: &str, syms: &Vec<Symbol>, Ghost(cuts): Ghost<Seq<int>>) -> (ids: Vec<
        u32,
    >)
        requires
            chain(syms@, norm@, cuts),
        ensures
            ids@ == pieces(norm@, cuts).flat_map(|p: Seq<char>| self@.piece_ids(p)),
    {
        let ghost all = pieces(norm@, cuts);
        let ghost f = |p: Seq<char>| self@.piece_ids(p);
        let ghost mut k: int = 0;
        let mut ids: Vec<u32> = Vec::new();
        let mut at: usize = 0;
        assert(all.take(0).map_values(f) =~= seq![]);
        proof {
            lemma_symbol(syms@, norm@, cuts, 0);
        }
        while at != NONE
            invariant
                chain(syms@, norm@, cuts),
                all == pieces(norm@, cuts),
                f == (|p: Seq<char>| self@.piece_ids(p)),
                0 <= k <= all.len(),
                at != NONE ==> k < all.len() && at == cuts[k],
                at == NONE ==> k == all.len(),
                ids@ == all.take(k).flat_map(f),
            decreases all.len() - k,
        {
            proof {
                lemma_symbol(syms@, norm@, cuts, k);
                if k + 1 < cuts.len() - 1 {
                    lemma_symbol(syms@, norm@, cuts, k + 1);
                }
            }
            let sym: Symbol = syms[at];
            let piece: &str = slice_str(
                norm,
                sym.start,
                sym.start + sym.len,
                Ghost(cuts[k]),
                Ghost(cuts[k + 1]),
            );
            self.emit(piece, &mut ids);
            proof {
                all.lemma_flat_map_take_append(f, k);
                k = k + 1;
            }
            at = sym.next;
        }
        assert(all.take(k) =~= all);
        ids
    }

    /// Encode text to token ids, without BOS or EOS.
    pub fn encode(&self, text: &str) -> (ids: Vec<u32>)
        ensures
            ids@ == self@.encode(text@),
    {
        if text.is_empty() {
            let ids: Vec<u32> = Vec::new();
            assert(ids@ =~= seq![]);
            return ids;
        }
        let norm: String = mark(text);
        let (syms, cuts) = self.merge_symbols(norm.as_str());
        self.emit_all(norm.as_str(), &syms, cuts)
    }

    /// Appends the bytes that an id stands for.
    fn decode_id(&self, id: u32, bytes: &mut Vec<u8>)
        ensures
            final(bytes)@ == old(bytes)@ + self@.id_bytes(id),
    {
        let ghost before = bytes@;
        proof {
            use_type_invariant(self);
        }
        assert(before + seq![] =~= before);
        if id as u64 >= self.id_to_token.len() as u64 {
            return;
        }
        let i: usize = id as usize;
        assert(self@.tokens[i as int] == self.id_to_token@[i as int]@);
        if self.token_type[i] == TYPE_BYTE {
            match parse_byte_token(self.id_to_token[i].as_str()) {
                Some(b) => {
                    bytes.push(b);
                    assert(bytes@ =~= before + seq![b]);
                },
                None => {},
            }
        } else if self.token_type[i] != TYPE_CONTROL {
            let shown: String = unmark(self.id_to_token[i].as_str());
            bytes.extend_from_slice(shown.as_str().as_bytes());
            assert(bytes@ =~= before + encode_utf8(shown@));
        }
    }

    /// Decode token ids back to a text. Byte tokens emit their byte, control
    /// tokens render to nothing, and `▁` becomes a space.
    pub fn decode(&self, ids: &[u32]) -> (text: String)
        ensures
            text@ == self@.decode(ids@),
    {
        let ghost f = |id: u32| self@.id_bytes(id);
        let mut bytes: Vec<u8> = Vec::new();
        let mut i: usize = 0;
        assert(ids@.take(0).map_values(f) =~= seq![]);
        while i < ids.len()
            invariant
                f == (|id: u32| self@.id_bytes(id)),
                i <= ids@.len(),
                bytes@ == ids@.take(i as int).flat_map(f),
            decreases ids@.len() - i,
        {
            self.decode_id(ids[i], &mut bytes);
            proof {
                ids@.lemma_flat_map_take_append(f, i as int);
            }
            i += 1;
        }
        assert(ids@.take(i as int) =~= ids@);
        text_lossy(bytes.as_slice())
    }

    pub fn vocab_size(&self) -> (n: usize)
        ensures
            n == self@.tokens.len(),
    {
        self.id_to_token.len()
    }

    pub fn bos(&self) -> (id: u32)
        ensures
            id == self@.bos,
    {
        self.bos
    }

    pub fn eos(&self) -> (id: u32)
        ensures
            id == self@.eos,
    {
        self.eos
    }

    /// Whether a prompt starts with the BOS token.
    pub fn add_bos(&self) -> (b: bool)
        ensures
            b == self@.add_bos,
    {
        self.add_bos
    }
}

/// Scores that are numbers compare with each other.
proof fn lemma_scores_ordered(t: SpmView)
    requires
        t.scores.len() == t.tokens.len(),
        forall|i: int| 0 <= i < t.scores.len() ==> !is_nan(#[trigger] t.scores[i]),
    ensures
        is_ordered(by_score(t.score())),
{
    let prio = by_score(t.score());
    assert forall|a: Seq<char>, b: Seq<char>| #[trigger] prio(a, b) != Some(unordered()) by {
        lemma_place(t.tokens, a + b);
        assert(prio(a, b) == (t.score())(a + b));
    }
}

/// Whether the pair at `best` is ahead of the pairs before `k`, at the priority
/// `y`: the pair at `first` is the leftmost that may merge, and stays ahead if
/// its priority compares with no other.
spec fn leads_by(
    p: Seq<Seq<char>>,
    prio: Priority,
    k: int,
    first: int,
    best: int,
    y: int,
) -> bool {
    &&& pair_priority(p, prio, best) == Some(y)
    &&& pair_priority(p, prio, first) is Some
    &&& forall|j: int| 0 <= j < first ==> (#[trigger] pair_priority(p, prio, j)) is None
    &&& if pair_priority(p, prio, first) == Some(unordered()) {
        best == first
    } else {
        y > unordered() && forall|j: int|
            0 <= j < k && (#[trigger] pair_priority(p, prio, j)) is Some ==> {
                let x = pair_priority(p, prio, j)->0;
                x < y || x == y && best <= j
            }
    }
}

/// The pair that is ahead at the end is the one to merge.
proof fn lemma_leader_is_best(
    p: Seq<Seq<char>>,
    prio: Priority,
    first: int,
    best: int,
    y: int,
)
    requires
        0 <= first <= best < p.len() - 1,
        leads_by(p, prio, p.len() - 1, first, best, y),
    ensures
        is_best(p, prio, best),
{
    if pair_priority(p, prio, first) == Some(unordered()) {
        assert(stays_ahead(p, prio, first));
    } else {
        assert forall|j: int| !stays_ahead(p, prio, j) by {
            if first < j {
                assert(pair_priority(p, prio, first) is Some);
            }
        }
    }
}

/// A text with a space before it, and markers for spaces.
fn mark(text: &str) -> (norm: String)
    ensures
        norm@ == marked(text@),
{
    let ghost f = |c: char|
        if c == ' ' {
            SPACE
        } else {
            c
        };
    let mut norm: String = String::new();
    norm.push(SPACE);
    assert(text@.take(0).map_values(f) =~= seq![]);
    assert(norm@ =~= seq![SPACE] + text@.take(0).map_values(f));
    for c in iter: text.chars()
        invariant
            iter.seq() == text@,
            f == (|c: char|
                if c == ' ' {
                    SPACE
                } else {
                    c
                }),
            norm@ == seq![SPACE] + text@.take(iter.index()).map_values(f),
    {
        let ghost k = iter.index();
        norm.push(
            if c == ' ' {
                SPACE
            } else {
                c
            },
        );
        assert(text@.take(k + 1) =~= text@.take(k).push(c));
        assert(norm@ =~= seq![SPACE] + text@.take(k + 1).map_values(f));
    }
    assert(text@.take(text@.len() as int) =~= text@);
    norm
}

/// A token with spaces for markers.
fn unmark(token: &str) -> (shown: String)
    ensures
        shown@ == unmarked(token@),
{
    let ghost f = |c: char|
        if c == SPACE {
            ' '
        } else {
            c
        };
    let mut shown: String = String::new();
    assert(shown@ =~= token@.take(0).map_values(f));
    for c in iter: token.chars()
        invariant
            iter.seq() == token@,
            f == (|c: char|
                if c == SPACE {
                    ' '
                } else {
                    c
                }),
            shown@ == token@.take(iter.index()).map_values(f),
    {
        let ghost k = iter.index();
        shown.push(
            if c == SPACE {
                ' '
            } else {
                c
            },
        );
        assert(token@.take(k + 1) =~= token@.take(k).push(c));
        assert(shown@ =~= token@.take(k + 1).map_values(f));
    }
    assert(token@.take(token@.len() as int) =~= token@);
    shown
}

/// What the queue holds after a pair was offered to it.
proof fn lemma_offered(
    s: Seq<char>,
    syms: Seq<Symbol>,
    cuts: Seq<int>,
    score: Score,
    before: Multiset<Bigram>,
    after: Multiset<Bigram>,
    k: int,
)
    requires
        chain(syms, s, cuts),
        scores_fit(score),
        0 <= k < cuts.len() - 2,
        all_ok(s, syms, score, before),
        after == (match score(pair_text(s, cuts, k)) {
            Some(x) => before.insert(candidate(s, cuts, k, x)),
            None => before,
        }),
    ensures
        all_ok(s, syms, score, after),
        holds_pair(s, cuts, score, after, k),
        forall|m: int|
            #![trigger holds_pair(s, cuts, score, before, m)]
            #![trigger holds_pair(s, cuts, score, after, m)]
            holds_pair(s, cuts, score, before, m) ==> holds_pair(s, cuts, score, after, m),
        after.len() <= before.len() + 1,
{
    if score(pair_text(s, cuts, k)) is Some {
        lemma_candidate_ok(s, syms, cuts, score, k);
        let c = candidate(s, cuts, k, score(pair_text(s, cuts, k))->0);
        assert forall|e: Bigram| #[trigger] after.contains(e) implies before.contains(e) || e
            == c by {}
        assert forall|e: Bigram| #[trigger] before.contains(e) implies after.contains(e) by {}
    }
}

/// What the queue holds after a merge, when the pairs on both sides of the
/// merged piece were offered to it.
proof fn lemma_requeued(
    s: Seq<char>,
    syms: Seq<Symbol>,
    cuts: Seq<int>,
    score: Score,
    before: Multiset<Bigram>,
    middle: Multiset<Bigram>,
    after: Multiset<Bigram>,
    e: Bigram,
    k: int,
)
    requires
        is_cut(cuts, s.len() as int),
        s.len() <= usize::MAX,
        scores_fit(score),
        0 <= k < cuts.len() - 2,
        e.left == cuts[k],
        before.contains(e),
        holds_all(s, cuts, score, before),
        chain(syms, s, cuts.remove(k + 1)),
        all_ok(s, syms, score, before.remove(e)),
        middle == (if k == 0 {
            before.remove(e)
        } else {
            match score(pair_text(s, cuts.remove(k + 1), k - 1)) {
                Some(x) => before.remove(e).insert(candidate(s, cuts.remove(k + 1), k - 1, x)),
                None => before.remove(e),
            }
        }),
        after == (if k == cuts.len() - 3 {
            middle
        } else {
            match score(pair_text(s, cuts.remove(k + 1), k)) {
                Some(x) => middle.insert(candidate(s, cuts.remove(k + 1), k, x)),
                None => middle,
            }
        }),
    ensures
        all_ok(s, syms, score, after),
        holds_all(s, cuts.remove(k + 1), score, after),
        after.len() <= before.len() + 1,
{
    let rest = cuts.remove(k + 1);
    let popped = before.remove(e);
    lemma_popped(before, e);
    if k > 0 {
        lemma_offered(s, syms, rest, score, popped, middle, k - 1);
    }
    if k < rest.len() - 2 {
        lemma_offered(s, syms, rest, score, middle, after, k);
    }
    assert forall|m: int| 0 <= m < rest.len() - 2 implies #[trigger] holds_pair(
        s,
        rest,
        score,
        after,
        m,
    ) by {
        if m < k - 1 || m > k {
            lemma_holds_after(s, cuts, score, before, k, e, m);
            assert(holds_pair(s, rest, score, popped, m));
        }
        if m != k {
            assert(holds_pair(s, rest, score, middle, m));
        }
    }
}

proof fn lemma_popped(before: Multiset<Bigram>, e: Bigram)
    requires
        before.contains(e),
    ensures
        before.remove(e).len() == before.len() - 1,
{
}

/// Dropping an entry that is no longer alive loses no candidate.
proof fn lemma_stale(
    s: Seq<char>,
    syms: Seq<Symbol>,
    cuts: Seq<int>,
    score: Score,
    before: Multiset<Bigram>,
    e: Bigram,
)
    requires
        chain(syms, s, cuts),
        s.len() <= usize::MAX,
        all_ok(s, syms, score, before),
        holds_all(s, cuts, score, before),
        before.contains(e),
        syms[e.left as int].len == 0 || syms[e.right as int].len == 0 || syms[e.left as int].len
            + syms[e.right as int].len != e.size,
    ensures
        all_ok(s, syms, score, before.remove(e)),
        holds_all(s, cuts, score, before.remove(e)),
{
    let after = before.remove(e);
    assert forall|x: Bigram| #[trigger] after.contains(x) implies before.contains(x) by {}
    assert forall|k: int| 0 <= k < cuts.len() - 2 implies #[trigger] holds_pair(
        s,
        cuts,
        score,
        after,
        k,
    ) by {
        assert(holds_pair(s, cuts, score, before, k));
        lemma_symbol(syms, s, cuts, k);
        lemma_symbol(syms, s, cuts, k + 1);
        lemma_cut(cuts, s.len() as int, k);
        match score(pair_text(s, cuts, k)) {
            Some(x) => {
                assert(candidate(s, cuts, k, x) != e);
            },
            None => {},
        }
    }
}

} // verus!
