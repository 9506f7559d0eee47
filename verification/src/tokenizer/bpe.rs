//! Byte-level BPE.

use vstd::hash_map::StringHashMap;
use vstd::prelude::*;
use vstd::string::StringExecFns;
use vstd::utf8::{encode_utf8, is_scalar};

use crate::gguf::format::{texts, viewed};
use crate::gguf::GgufFile;
use crate::text::{lossy_text, text_lossy};
use crate::tokenizer::alphabet::{byte_of, bytes_to_unicode, find_byte, symbol, unicode_to_bytes};
use crate::tokenizer::error::TokenizerError;
use crate::tokenizer::merge::{
    is_best, is_ordered, merge_all, merge_at, merge_done, merge_step, pair_priority, singles,
    top_is_best, unordered, Priority,
};
use crate::tokenizer::vocab::{copied, number_of, numbering, numbers};
use crate::tokenizer::words::{pretokenize, slices, words};

verus! {

/// What a byte-level BPE tokenizer consists of: the tokens by id, the merge
/// rules in order of rank, each two pieces with a space between them, and the
/// ids of the special tokens.
#[verifier::ext_equal]
pub struct BpeView {
    pub tokens: Seq<Seq<char>>,
    pub rules: Seq<Seq<char>>,
    pub bos: u32,
    pub eos: u32,
    pub unk: u32,
}

/// The rank of the rule that merges `a` with `b`. The first space of a rule
/// ends its left piece.
pub open spec fn rank_of(rules: Seq<Seq<char>>, a: Seq<char>, b: Seq<char>) -> Option<u32> {
    if a.contains(' ') {
        None
    } else {
        number_of(rules, a.push(' ') + b)
    }
}

/// A word in the byte alphabet.
pub open spec fn mapped(word: Seq<char>) -> Seq<char> {
    encode_utf8(word).map_values(|b: u8| symbol(b))
}

/// The bytes that a token stands for; characters outside the alphabet stand
/// for none.
pub open spec fn token_bytes(token: Seq<char>) -> Seq<u8>
    decreases token.len(),
{
    if token.len() == 0 {
        seq![]
    } else {
        match byte_of(token.last()) {
            Some(b) => token_bytes(token.drop_last()).push(b),
            None => token_bytes(token.drop_last()),
        }
    }
}

/// Merge ranks compare with each other.
pub(crate) proof fn lemma_ranks_ordered(t: BpeView)
    ensures
        is_ordered(t.priority()),
{
    let prio = t.priority();
    assert forall|a: Seq<char>, b: Seq<char>| #[trigger] prio(a, b) != Some(unordered()) by {
        assert(prio(a, b) == (match rank_of(t.rules, a, b) {
            Some(r) => Some(-(r as int)),
            None => None,
        }));
    }
}

impl BpeView {
    /// A rule of lower rank merges first.
    pub open spec fn priority(self) -> Priority {
        |a: Seq<char>, b: Seq<char>|
            match rank_of(self.rules, a, b) {
                Some(r) => Some(-(r as int)),
                None => None,
            }
    }

    /// The pieces that the merge rules leave of a word.
    pub open spec fn pieces(self, word: Seq<char>) -> Seq<Seq<char>> {
        merge_all(singles(word), self.priority())
    }

    /// The id of a piece, or that of the unknown token.
    pub open spec fn id(self, piece: Seq<char>) -> u32 {
        match number_of(self.tokens, piece) {
            Some(id) => id,
            None => self.unk,
        }
    }

    /// The ids of one unit of a text.
    pub open spec fn word_ids(self, word: Seq<char>) -> Seq<u32> {
        self.pieces(mapped(word)).map_values(|p: Seq<char>| self.id(p))
    }

    /// The ids of a text.
    pub open spec fn encode(self, text: Seq<char>) -> Seq<u32> {
        words(text).flat_map(|w: Seq<char>| self.word_ids(w))
    }

    /// The bytes that an id stands for; an id beyond the vocabulary stands for
    /// none.
    pub open spec fn id_bytes(self, id: u32) -> Seq<u8> {
        if id < self.tokens.len() {
            token_bytes(self.tokens[id as int])
        } else {
            seq![]
        }
    }

    /// The bytes that a list of ids stands for.
    pub open spec fn bytes(self, ids: Seq<u32>) -> Seq<u8> {
        ids.flat_map(|id: u32| self.id_bytes(id))
    }

    /// The text of a list of ids.
    pub open spec fn decode(self, ids: Seq<u32>) -> Seq<char> {
        lossy_text(self.bytes(ids))
    }
}

/// A byte-level BPE tokenizer.
pub struct Bpe {
    /// Token piece by id, in the byte alphabet.
    id_to_token: Vec<String>,
    /// Id by token piece.
    token_to_id: StringHashMap<u32>,
    /// Rank by merge rule.
    rule_rank: StringHashMap<u32>,
    /// Character by byte.
    byte_encoder: [char; 256],
    /// Byte by code point of its character.
    byte_decoder: Vec<Option<u8>>,
    bos: u32,
    eos: u32,
    unk: u32,
    rules: Ghost<Seq<Seq<char>>>,
}

impl View for Bpe {
    type V = BpeView;

    closed spec fn view(&self) -> BpeView {
        BpeView {
            tokens: texts(self.id_to_token@),
            rules: self.rules@,
            bos: self.bos,
            eos: self.eos,
            unk: self.unk,
        }
    }
}

/// Whether a text has a space in it.
fn has_space(s: &str) -> (r: bool)
    ensures
        r == s@.contains(' '),
{
    for c in iter: s.chars()
        invariant
            iter.seq() == s@,
            forall|i: int| 0 <= i < iter.index() ==> s@[i] != ' ',
    {
        if c == ' ' {
            assert(s@[iter.index()] == ' ');
            return true;
        }
    }
    false
}

impl Bpe {
    #[verifier::type_invariant]
    spec fn wf(self) -> bool {
        &&& numbers(self.token_to_id@, texts(self.id_to_token@))
        &&& numbers(self.rule_rank@, self.rules@)
        &&& forall|b: u8| self.byte_encoder@[b as int] == #[trigger] symbol(b)
        &&& self.byte_decoder@.len() == 324
        &&& forall|i: int|
            0 <= i < 324 && is_scalar(i as u32) ==> #[trigger] self.byte_decoder@[i] == byte_of(
                i as u32 as char,
            )
    }

    /// Builds a tokenizer from its tokens, by id, and its merge rules, by rank.
    /// Fails at the first rule without a space.
    pub fn build(tokens: Vec<String>, merges: &[String], bos: u32, eos: u32, unk: u32) -> (r:
        Result<Bpe, TokenizerError>)
        ensures
            viewed(r) == bpe_from(texts(tokens@), texts(merges@), bos, eos, unk),
    {
        let ghost rules = texts(merges@);
        let mut i: usize = 0;
        assert(rules.take(0) =~= seq![]);
        while i < merges.len()
            invariant
                rules == texts(merges@),
                i <= merges@.len(),
                first_malformed(rules.take(i as int)) is None,
            decreases merges@.len() - i,
        {
            assert(rules.take(i + 1).drop_last() =~= rules.take(i as int));
            assert(rules.take(i + 1).last() == merges@[i as int]@);
            if !has_space(merges[i].as_str()) {
                proof {
                    lemma_malformed(rules, i as int);
                }
                return Err(TokenizerError::MalformedMerge(i));
            }
            i += 1;
        }
        assert(rules.take(i as int) =~= rules);
        let token_to_id: StringHashMap<u32> = numbering(tokens.as_slice());
        let rule_rank: StringHashMap<u32> = numbering(merges);
        let byte_encoder: [char; 256] = bytes_to_unicode();
        let byte_decoder: Vec<Option<u8>> = unicode_to_bytes();
        Ok(
            Bpe {
                id_to_token: tokens,
                token_to_id,
                rule_rank,
                byte_encoder,
                byte_decoder,
                bos,
                eos,
                unk,
                rules: Ghost(texts(merges@)),
            },
        )
    }

    /// Builds a tokenizer from the metadata of a file.
    pub fn from_gguf(g: &GgufFile) -> (r: Result<Bpe, TokenizerError>)
        ensures
            viewed(r) == bpe_of(*g),
    {
        let tokens: Vec<String> = match g.get_arr_str("tokenizer.ggml.tokens") {
            Some(v) => copied(v),
            None => return Err(TokenizerError::MissingTokens),
        };
        let merges: &[String] = match g.get_arr_str("tokenizer.ggml.merges") {
            Some(v) => v,
            None => return Err(TokenizerError::MissingMerges),
        };
        let unk: u32 = match g.get_u32("tokenizer.ggml.unknown_token_id") {
            Some(id) => id,
            None => return Err(TokenizerError::MissingUnknownId),
        };
        let bos: u32 = match g.get_u32("tokenizer.ggml.bos_token_id") {
            Some(id) => id,
            None => return Err(TokenizerError::MissingBosId),
        };
        let eos: u32 = match g.get_u32("tokenizer.ggml.eos_token_id") {
            Some(id) => id,
            None => return Err(TokenizerError::MissingEosId),
        };
        Self::build(tokens, merges, bos, eos, unk)
    }

    fn rank(&self, a: &String, b: &String) -> (r: Option<u32>)
        ensures
            r == rank_of(self@.rules, a@, b@),
    {
        proof {
            use_type_invariant(self);
        }
        if has_space(a.as_str()) {
            return None;
        }
        let mut rule: String = a.clone();
        rule.push(' ');
        rule.append(b.as_str());
        assert(number_of(self.rules@, rule@) == (if self.rule_rank@.contains_key(rule@) {
            Some(self.rule_rank@[rule@])
        } else {
            None
        }));
        match self.rule_rank.get(rule.as_str()) {
            Some(r) => Some(*r),
            None => None,
        }
    }

    /// The pair of neighbours with the lowest merge rank.
    fn best_pair(&self, pieces: &Vec<String>) -> (r: Option<usize>)
        ensures
            match r {
                Some(i) => is_best(texts(pieces@), self@.priority(), i as int),
                None => forall|i: int|
                    0 <= i < pieces@.len() - 1 ==> (#[trigger] pair_priority(
                        texts(pieces@),
                        self@.priority(),
                        i,
                    )) is None,
            },
    {
        let ghost p = texts(pieces@);
        let ghost prio = self@.priority();
        let mut best: Option<(usize, u32)> = None;
        let last: usize = if pieces.len() == 0 {
            0
        } else {
            pieces.len() - 1
        };
        let mut i: usize = 0;
        while i < last
            invariant
                p == texts(pieces@),
                prio == self@.priority(),
                i <= last,
                last == (if pieces@.len() == 0 {
                    0
                } else {
                    pieces@.len() - 1
                }),
                match best {
                    Some((k, rank)) => k < i && i <= p.len() - 1 && pair_priority(p, prio, k as int)
                        == Some(-(rank as int)) && forall|j: int|
                        0 <= j < i && (#[trigger] pair_priority(p, prio, j)) is Some ==> {
                            let x = pair_priority(p, prio, j)->0;
                            x < -(rank as int) || x == -(rank as int) && k <= j
                        },
                    None => forall|j: int|
                        0 <= j < i && j < p.len() - 1 ==> (#[trigger] pair_priority(
                            p,
                            prio,
                            j,
                        )) is None,
                },
            decreases last - i,
        {
            let rank: Option<u32> = self.rank(&pieces[i], &pieces[i + 1]);
            assert(pair_priority(p, prio, i as int) == (match rank {
                Some(r) => Some(-(r as int)),
                None => None,
            }));
            match (rank, best) {
                (Some(r), Some((_, b))) => {
                    if r < b {
                        best = Some((i, r));
                    }
                },
                (Some(r), None) => {
                    best = Some((i, r));
                },
                (None, _) => {},
            }
            i += 1;
        }
        match best {
            Some((k, _)) => {
                proof {
                    lemma_ranks_ordered(self@);
                    top_is_best(p, prio, k as int);
                }
                Some(k)
            },
            None => None,
        }
    }

    /// Apply the merge rules to a single word, already in the byte alphabet,
    /// and return the pieces that are left.
    pub fn bpe(&self, word: &str) -> (pieces: Vec<String>)
        ensures
            texts(pieces@) == self@.pieces(word@),
    {
        let mut pieces: Vec<String> = Vec::new();
        for c in iter: word.chars()
            invariant
                iter.seq() == word@,
                texts(pieces@) == singles(word@.take(iter.index())),
        {
            let ghost before = texts(pieces@);
            let ghost k = iter.index();
            let mut piece: String = String::new();
            piece.push(c);
            pieces.push(piece);
            proof {
                assert(piece@ =~= seq![c]);
                assert(texts(pieces@) =~= before.push(seq![c]));
                assert(singles(word@.take(k + 1)) =~= singles(word@.take(k)).push(seq![c]));
            }
        }
        assert(word@.take(word@.len() as int) =~= word@);
        let ghost prio = self@.priority();
        loop
            invariant
                prio == self@.priority(),
                self@.pieces(word@) == merge_all(texts(pieces@), prio),
            ensures
                texts(pieces@) == self@.pieces(word@),
            decreases pieces@.len(),
        {
            let ghost before = texts(pieces@);
            match self.best_pair(&pieces) {
                None => {
                    proof {
                        merge_done(before, prio);
                    }
                    break;
                },
                Some(i) => {
                    assert(pieces@.len() == pieces.len());
                    let right: String = pieces.remove(i + 1);
                    let mut both: String = pieces[i].clone();
                    both.append(right.as_str());
                    pieces.set(i, both);
                    proof {
                        merge_step(before, prio, i as int);
                        assert(texts(pieces@) =~= merge_at(before, i as int));
                    }
                },
            }
        }
        pieces
    }

    /// A word in the byte alphabet.
    fn map_bytes(&self, word: &str) -> (r: String)
        ensures
            r@ == mapped(word@),
    {
        proof {
            use_type_invariant(self);
        }
        let bytes: &[u8] = word.as_bytes();
        let mut r: String = String::new();
        let mut i: usize = 0;
        while i < bytes.len()
            invariant
                forall|b: u8| self.byte_encoder@[b as int] == #[trigger] symbol(b),
                bytes@ == encode_utf8(word@),
                i <= bytes@.len(),
                r@ == bytes@.take(i as int).map_values(|b: u8| symbol(b)),
            decreases bytes@.len() - i,
        {
            let c: char = self.byte_encoder[bytes[i] as usize];
            assert(c == symbol(bytes@[i as int]));
            r.push(c);
            assert(bytes@.take(i + 1) =~= bytes@.take(i as int).push(bytes@[i as int]));
            assert(r@ =~= bytes@.take(i + 1).map_values(|b: u8| symbol(b)));
            i += 1;
        }
        assert(bytes@.take(i as int) =~= bytes@);
        r
    }

    /// Appends the ids of one unit of a text.
    fn encode_word(&self, word: &str, ids: &mut Vec<u32>)
        ensures
            final(ids)@ == old(ids)@ + self@.word_ids(word@),
    {
        let word_mapped: String = self.map_bytes(word);
        let pieces: Vec<String> = self.bpe(word_mapped.as_str());
        let ghost all = self@.pieces(mapped(word@));
        let ghost f = |p: Seq<char>| self@.id(p);
        let ghost before = ids@;
        proof {
            use_type_invariant(self);
            assert(all.take(0).map_values(f) =~= seq![]);
        }
        let mut i: usize = 0;
        while i < pieces.len()
            invariant
                texts(pieces@) == all,
                f == (|p: Seq<char>| self@.id(p)),
                i <= pieces@.len(),
                numbers(self.token_to_id@, self@.tokens),
                ids@ == before + all.take(i as int).map_values(f),
            decreases pieces@.len() - i,
        {
            let ghost piece = pieces@[i as int]@;
            assert(number_of(self@.tokens, piece) == (if self.token_to_id@.contains_key(piece) {
                Some(self.token_to_id@[piece])
            } else {
                None
            }));
            match self.token_to_id.get(pieces[i].as_str()) {
                Some(id) => ids.push(*id),
                None => ids.push(self.unk),
            }
            assert(all[i as int] == piece);
            assert(all.take(i + 1) =~= all.take(i as int).push(piece));
            assert(ids@ =~= before + all.take(i + 1).map_values(f));
            i += 1;
        }
        assert(all.take(i as int) =~= all);
    }

    /// Encode text to token ids, without BOS or EOS.
    ///
    /// The text is split into units at its spaces first, and the merge rules
    /// work within a unit, so that the work grows with the number of units.
    pub fn encode(&self, text: &str) -> (ids: Vec<u32>)
        ensures
            ids@ == self@.encode(text@),
    {
        let units: Vec<&str> = pretokenize(text);
        let ghost all = words(text@);
        let ghost f = |w: Seq<char>| self@.word_ids(w);
        let mut ids: Vec<u32> = Vec::new();
        let mut i: usize = 0;
        assert(all.take(0).map_values(f) =~= seq![]);
        while i < units.len()
            invariant
                slices(units@) == all,
                f == (|w: Seq<char>| self@.word_ids(w)),
                i <= units@.len(),
                ids@ == all.take(i as int).flat_map(f),
            decreases units@.len() - i,
        {
            self.encode_word(units[i], &mut ids);
            proof {
                all.lemma_flat_map_take_append(f, i as int);
                assert(all[i as int] == units@[i as int]@);
            }
            i += 1;
        }
        assert(all.take(i as int) =~= all);
        ids
    }

    /// Appends the bytes of one token.
    fn decode_token(&self, token: &str, bytes: &mut Vec<u8>)
        ensures
            final(bytes)@ == old(bytes)@ + token_bytes(token@),
    {
        proof {
            use_type_invariant(self);
            assert(token@.take(0) =~= seq![]);
        }
        let ghost before = bytes@;
        for c in iter: token.chars()
            invariant
                iter.seq() == token@,
                self.wf(),
                bytes@ == before + token_bytes(token@.take(iter.index())),
        {
            proof {
                let k = iter.index();
                assert(token@.take(k + 1).drop_last() =~= token@.take(k));
                assert(token@.take(k + 1).last() == c);
            }
            match find_byte(&self.byte_decoder, c) {
                Some(b) => bytes.push(b),
                None => {},
            }
        }
        assert(token@.take(token@.len() as int) =~= token@);
    }

    /// Decode token ids back to a text.
    pub fn decode(&self, ids: &[u32]) -> (text: String)
        ensures
            text@ == self@.decode(ids@),
    {
        let ghost f = |id: u32| self@.id_bytes(id);
        let mut bytes: Vec<u8> = Vec::new();
        let mut i: usize = 0;
        assert(ids@.take(0).map_values(f) =~= seq![]);
        while i < ids.len()
            invariant
                f == (|id: u32| self@.id_bytes(id)),
                i <= ids@.len(),
                bytes@ == ids@.take(i as int).flat_map(f),
            decreases ids@.len() - i,
        {
            let ghost before = bytes@;
            if (ids[i] as u64) < self.id_to_token.len() as u64 {
                self.decode_token(self.id_to_token[ids[i] as usize].as_str(), &mut bytes);
            } else {
                assert(before + f(ids@[i as int]) =~= before);
            }
            proof {
                ids@.lemma_flat_map_take_append(f, i as int);
            }
            i += 1;
        }
        assert(ids@.take(i as int) =~= ids@);
        text_lossy(bytes.as_slice())
    }

    pub fn vocab_size(&self) -> (n: usize)
        ensures
            n == self@.tokens.len(),
    {
        self.id_to_token.len()
    }

    pub fn bos(&self) -> (id: u32)
        ensures
            id == self@.bos,
    {
        self.bos
    }

    pub fn eos(&self) -> (id: u32)
        ensures
            id == self@.eos,
    {
        self.eos
    }
}

/// The place of the first rule without a space.
pub open spec fn first_malformed(rules: Seq<Seq<char>>) -> Option<int>
    decreases rules.len(),
{
    if rules.len() == 0 {
        None
    } else {
        match first_malformed(rules.drop_last()) {
            Some(i) => Some(i),
            None => if rules.last().contains(' ') {
                None
            } else {
                Some(rules.len() - 1)
            },
        }
    }
}

proof fn lemma_malformed(rules: Seq<Seq<char>>, i: int)
    requires
        0 <= i < rules.len(),
        first_malformed(rules.take(i + 1)) is Some,
    ensures
        first_malformed(rules) == first_malformed(rules.take(i + 1)),
    decreases rules.len(),
{
    if i < rules.len() - 1 {
        assert(rules.drop_last().take(i + 1) =~= rules.take(i + 1));
        lemma_malformed(rules.drop_last(), i);
    } else {
        assert(rules.take(i + 1) =~= rules);
    }
}

/// The tokenizer that tokens and merge rules make, or the error that a rule
/// without a space is.
pub open spec fn bpe_from(
    tokens: Seq<Seq<char>>,
    rules: Seq<Seq<char>>,
    bos: u32,
    eos: u32,
    unk: u32,
) -> Result<BpeView, TokenizerError> {
    match first_malformed(rules) {
        Some(i) => Err(TokenizerError::MalformedMerge(i as usize)),
        None => Ok(BpeView { tokens, rules, bos, eos, unk }),
    }
}

/// The tokenizer that the metadata of a file describes.
pub open spec fn bpe_of(g: GgufFile) -> Result<BpeView, TokenizerError> {
    match g.strs_value("tokenizer.ggml.tokens"@) {
        None => Err(TokenizerError::MissingTokens),
        Some(tokens) => match g.strs_value("tokenizer.ggml.merges"@) {
            None => Err(TokenizerError::MissingMerges),
            Some(rules) => match g.u32_value("tokenizer.ggml.unknown_token_id"@) {
                None => Err(TokenizerError::MissingUnknownId),
                Some(unk) => match g.u32_value("tokenizer.ggml.bos_token_id"@) {
                    None => Err(TokenizerError::MissingBosId),
                    Some(bos) => match g.u32_value("tokenizer.ggml.eos_token_id"@) {
                        None => Err(TokenizerError::MissingEosId),
                        Some(eos) => bpe_from(tokens, rules, bos, eos, unk),
                    },
                },
            },
        },
    }
}

} // verus!
