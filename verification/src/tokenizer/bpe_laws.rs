//! What holds of byte-level BPE as a whole: decoding undoes encoding.

use vstd::prelude::*;
use vstd::seq_lib::lemma_flatten_concat;
use vstd::utf8::{encode_utf8, encode_utf8_decode_utf8, encode_utf8_valid_utf8};

use crate::text::{lemma_byte_range, lemma_char_at, lemma_encode_concat};
use crate::tokenizer::alphabet::{byte_of_symbol, symbol};
use crate::tokenizer::bpe::{lemma_ranks_ordered, mapped, rank_of, token_bytes, BpeView};
use crate::tokenizer::merge::{
    merge_all, merge_done, merged_pieces, merging_keeps_text, rows_merge_apart, singles,
    singles_join,
};
use crate::tokenizer::vocab::{lemma_place, place_of};
use crate::tokenizer::words::{words, words_join, words_shape};

verus! {

/// Whether a piece is in the vocabulary, under an id of its own.
pub open spec fn known(t: BpeView, piece: Seq<char>) -> bool {
    place_of(t.tokens, piece) is Some
}

/// Whether a vocabulary holds every byte and the result of every merge.
pub open spec fn covers_bytes(t: BpeView) -> bool {
    &&& t.tokens.len() <= 0x1_0000_0000
    &&& forall|b: u8| known(t, #[trigger] seq![symbol(b)])
    &&& forall|x: Seq<char>, y: Seq<char>| (#[trigger] rank_of(t.rules, x, y)) is Some ==> known(
        t,
        x + y,
    )
}

proof fn lemma_token_bytes_concat(x: Seq<char>, y: Seq<char>)
    ensures
        token_bytes(x + y) == token_bytes(x) + token_bytes(y),
    decreases y.len(),
{
    if y.len() == 0 {
        assert(x + y =~= x);
        assert(token_bytes(x) + token_bytes(y) =~= token_bytes(x));
    } else {
        assert((x + y).drop_last() =~= x + y.drop_last());
        lemma_token_bytes_concat(x, y.drop_last());
        assert(token_bytes(x + y) =~= token_bytes(x) + token_bytes(y));
    }
}

proof fn lemma_mapped_bytes(bytes: Seq<u8>)
    ensures
        token_bytes(bytes.map_values(|b: u8| symbol(b))) == bytes,
    decreases bytes.len(),
{
    let m = bytes.map_values(|b: u8| symbol(b));
    if bytes.len() > 0 {
        assert(m.drop_last() =~= bytes.drop_last().map_values(|b: u8| symbol(b)));
        lemma_mapped_bytes(bytes.drop_last());
        byte_of_symbol(bytes.last());
        assert(bytes.drop_last().push(bytes.last()) =~= bytes);
    } else {
        assert(bytes =~= seq![]);
    }
}

/// Decoding goes id by id: two lists of ids, joined, stand for the bytes of the
/// one and then those of the other.
pub proof fn bytes_of_joined(t: BpeView, x: Seq<u32>, y: Seq<u32>)
    ensures
        t.bytes(x + y) == t.bytes(x) + t.bytes(y),
{
    let f = |id: u32| t.id_bytes(id);
    assert((x + y).map_values(f) =~= x.map_values(f) + y.map_values(f));
    lemma_flatten_concat(x.map_values(f), y.map_values(f));
}

proof fn lemma_bytes_one(t: BpeView, id: u32)
    ensures
        t.bytes(seq![id]) == t.id_bytes(id),
{
    let f = |id: u32| t.id_bytes(id);
    assert(seq![id].map_values(f) =~= seq![t.id_bytes(id)]);
    seq![t.id_bytes(id)].lemma_flatten_one_element();
}

/// The id of a known piece stands for the bytes of the piece.
proof fn lemma_known_id(t: BpeView, piece: Seq<char>)
    requires
        t.tokens.len() <= 0x1_0000_0000,
        known(t, piece),
    ensures
        t.id_bytes(t.id(piece)) == token_bytes(piece),
{
    lemma_place(t.tokens, piece);
}

proof fn lemma_pieces_bytes(t: BpeView, p: Seq<Seq<char>>)
    requires
        t.tokens.len() <= 0x1_0000_0000,
        forall|i: int| 0 <= i < p.len() ==> known(t, #[trigger] p[i]),
    ensures
        t.bytes(p.map_values(|x: Seq<char>| t.id(x))) == token_bytes(p.flatten()),
    decreases p.len(),
{
    let f = |x: Seq<char>| t.id(x);
    if p.len() == 0 {
        assert(p.map_values(f).map_values(|id: u32| t.id_bytes(id)) =~= seq![]);
    } else {
        let (init, last) = (p.drop_last(), p.last());
        lemma_pieces_bytes(t, init);
        assert(p.map_values(f) =~= init.map_values(f) + seq![t.id(last)]);
        bytes_of_joined(t, init.map_values(f), seq![t.id(last)]);
        lemma_bytes_one(t, t.id(last));
        lemma_known_id(t, last);
        assert(init.push(last) =~= p);
        init.lemma_flatten_push(last);
        lemma_token_bytes_concat(init.flatten(), last);
    }
}

proof fn lemma_word_bytes(t: BpeView, word: Seq<char>)
    requires
        t.tokens.len() <= 0x1_0000_0000,
        forall|i: int|
            0 <= i < t.pieces(mapped(word)).len() ==> known(t, #[trigger] t.pieces(mapped(word))[i]),
    ensures
        t.bytes(t.word_ids(word)) == encode_utf8(word),
{
    let m = mapped(word);
    lemma_pieces_bytes(t, t.pieces(m));
    merging_keeps_text(singles(m), t.priority());
    singles_join(m);
    lemma_mapped_bytes(encode_utf8(word));
}

/// Whether every piece that a text is split into is known.
pub open spec fn all_known(t: BpeView, text: Seq<char>) -> bool {
    forall|k: int, i: int|
        0 <= k < words(text).len() && 0 <= i < t.pieces(mapped(words(text)[k])).len() ==> known(
            t,
            #[trigger] t.pieces(mapped(words(text)[k]))[i],
        )
}

proof fn lemma_words_bytes(t: BpeView, w: Seq<Seq<char>>)
    requires
        t.tokens.len() <= 0x1_0000_0000,
        forall|k: int, i: int|
            0 <= k < w.len() && 0 <= i < t.pieces(mapped(w[k])).len() ==> known(
                t,
                #[trigger] t.pieces(mapped(w[k]))[i],
            ),
    ensures
        t.bytes(w.flat_map(|x: Seq<char>| t.word_ids(x))) == encode_utf8(w.flatten()),
    decreases w.len(),
{
    let f = |x: Seq<char>| t.word_ids(x);
    if w.len() == 0 {
        assert(w.map_values(f) =~= seq![]);
        assert(w.flat_map(f) =~= seq![]);
        assert(w.flat_map(f).map_values(|id: u32| t.id_bytes(id)) =~= seq![]);
    } else {
        let (init, last) = (w.drop_last(), w.last());
        assert forall|k: int, i: int|
            0 <= k < init.len() && 0 <= i < t.pieces(mapped(init[k])).len() implies known(
            t,
            #[trigger] t.pieces(mapped(init[k]))[i],
        ) by {
            assert(init[k] == w[k]);
            assert(known(t, t.pieces(mapped(w[k]))[i]));
        }
        lemma_words_bytes(t, init);
        assert forall|i: int| 0 <= i < t.pieces(mapped(last)).len() implies known(
            t,
            #[trigger] t.pieces(mapped(last))[i],
        ) by {
            assert(known(t, t.pieces(mapped(w[w.len() - 1]))[i]));
        }
        lemma_word_bytes(t, last);
        assert(init.push(last) =~= w);
        init.lemma_flat_map_push(f, last);
        bytes_of_joined(t, init.flat_map(f), t.word_ids(last));
        init.lemma_flatten_push(last);
        lemma_encode_concat(init.flatten(), last);
    }
}

/// Decoding undoes encoding: a text whose pieces are all in the vocabulary
/// comes back as it was.
pub proof fn decode_of_encode(t: BpeView, text: Seq<char>)
    requires
        t.tokens.len() <= 0x1_0000_0000,
        all_known(t, text),
    ensures
        t.decode(t.encode(text)) == text,
{
    lemma_words_bytes(t, words(text));
    words_join(text);
    encode_utf8_valid_utf8(text);
    encode_utf8_decode_utf8(text);
}

/// A vocabulary that holds every byte and the result of every merge knows
/// every piece of every text, so that any text comes back as it was.
pub proof fn decode_of_encode_any(t: BpeView, text: Seq<char>)
    requires
        covers_bytes(t),
    ensures
        t.decode(t.encode(text)) == text,
{
    let w = words(text);
    let ok = |p: Seq<char>| known(t, p);
    let prio = t.priority();
    assert forall|k: int, i: int|
        0 <= k < w.len() && 0 <= i < t.pieces(mapped(w[k])).len() implies known(
        t,
        #[trigger] t.pieces(mapped(w[k]))[i],
    ) by {
        let m = mapped(w[k]);
        assert forall|j: int| 0 <= j < singles(m).len() implies ok(#[trigger] singles(m)[j]) by {
            let b = encode_utf8(w[k])[j];
            assert(singles(m)[j] =~= seq![symbol(b)]);
        }
        assert forall|x: Seq<char>, y: Seq<char>| #[trigger] prio(x, y) is Some implies ok(x + y) by {
            assert(rank_of(t.rules, x, y) is Some);
        }
        merged_pieces(singles(m), prio, ok);
        assert(ok(merge_all(singles(m), prio)[i]));
    }
    decode_of_encode(t, text);
}

/// Every id of an encoded text is one of the vocabulary's, or the unknown id.
pub proof fn encoded_ids_are_known(t: BpeView, text: Seq<char>, i: int)
    requires
        0 <= i < t.encode(text).len(),
    ensures
        t.encode(text)[i] < t.tokens.len() || t.encode(text)[i] == t.unk,
{
    lemma_ids_known(t, words(text), i);
}

proof fn lemma_ids_known(t: BpeView, w: Seq<Seq<char>>, i: int)
    requires
        0 <= i < w.flat_map(|x: Seq<char>| t.word_ids(x)).len(),
    ensures
        ({
            let id = w.flat_map(|x: Seq<char>| t.word_ids(x))[i];
            id < t.tokens.len() || id == t.unk
        }),
    decreases w.len(),
{
    let f = |x: Seq<char>| t.word_ids(x);
    if w.len() == 0 {
        assert(w.map_values(f) =~= seq![]);
    } else {
        let (init, last) = (w.drop_last(), w.last());
        assert(init.push(last) =~= w);
        init.lemma_flat_map_push(f, last);
        let k = i - init.flat_map(f).len();
        if k < 0 {
            lemma_ids_known(t, init, i);
        } else {
            lemma_place(t.tokens, t.pieces(mapped(last))[k]);
        }
    }
}

/// Whether no rule merges a piece with one that starts with a space, as holds
/// of rules that were learned within units.
pub open spec fn rules_stay_within_words(t: BpeView) -> bool {
    forall|x: Seq<char>, y: Seq<char>|
        y.len() > 0 && y[0] == symbol(0x20) ==> (#[trigger] rank_of(t.rules, x, y)) is None
}

proof fn lemma_mapped_concat(x: Seq<char>, y: Seq<char>)
    ensures
        mapped(x + y) == mapped(x) + mapped(y),
        singles(mapped(x + y)) == singles(mapped(x)) + singles(mapped(y)),
{
    lemma_encode_concat(x, y);
    assert(mapped(x + y) =~= mapped(x) + mapped(y));
    assert(singles(mapped(x + y)) =~= singles(mapped(x)) + singles(mapped(y)));
}

proof fn lemma_starts_with_space(w: Seq<char>)
    requires
        w.len() > 0,
        w[0] == ' ',
    ensures
        mapped(w).len() > 0,
        mapped(w)[0] == symbol(0x20),
{
    lemma_char_at(w, 0);
    lemma_byte_range(w, 0, 0);
}

proof fn lemma_units_apart(t: BpeView, w: Seq<Seq<char>>)
    requires
        rules_stay_within_words(t),
        forall|k: int| 0 < k < w.len() ==> (#[trigger] w[k]).len() > 0 && w[k][0] == ' ',
    ensures
        w.flat_map(|x: Seq<char>| t.word_ids(x)) == t.word_ids(w.flatten()),
    decreases w.len(),
{
    let f = |x: Seq<char>| t.word_ids(x);
    let id = |p: Seq<char>| t.id(p);
    if w.len() == 0 {
        assert(w.map_values(f) =~= seq![]);
        assert(w.flatten() =~= seq![]);
        assert(mapped(seq![]) =~= seq![]);
        assert(singles(mapped(seq![])) =~= seq![]);
        assert(t.word_ids(seq![]) =~= seq![]) by {
            merge_done(singles(mapped(seq![])), t.priority());
        }
    } else {
        let (init, last) = (w.drop_last(), w.last());
        lemma_units_apart(t, init);
        assert(init.push(last) =~= w);
        init.lemma_flat_map_push(f, last);
        init.lemma_flatten_push(last);
        if init.len() == 0 {
            assert(init =~= seq![]);
            assert(init.map_values(f) =~= seq![]);
            assert(init.flatten() + last =~= last);
            assert(init.flat_map(f) + t.word_ids(last) =~= t.word_ids(last));
        } else {
            let (p, q) = (singles(mapped(init.flatten())), singles(mapped(last)));
            lemma_mapped_concat(init.flatten(), last);
            lemma_starts_with_space(last);
            let prio = t.priority();
            assert forall|x: Seq<char>, y: Seq<char>|
                y.len() > 0 && y[0] == symbol(0x20) implies #[trigger] prio(x, y) is None by {
                assert(rank_of(t.rules, x, y) is None);
            }
            lemma_ranks_ordered(t);
            rows_merge_apart(p, q, prio, symbol(0x20));
            assert((merge_all(p, prio) + merge_all(q, prio)).map_values(id) =~= merge_all(
                p,
                prio,
            ).map_values(id) + merge_all(q, prio).map_values(id));
        }
    }
}

/// Merging unit by unit gives the ids that merging the whole text at once
/// gives, wherever no rule crosses from one unit into the next.
pub proof fn units_give_whole_text_ids(t: BpeView, text: Seq<char>)
    requires
        rules_stay_within_words(t),
    ensures
        t.encode(text) == t.pieces(mapped(text)).map_values(|p: Seq<char>| t.id(p)),
{
    words_shape(text);
    words_join(text);
    assert forall|k: int| 0 < k < words(text).len() implies (#[trigger] words(text)[k]).len() > 0
        && words(text)[k][0] == ' ' by {}
    lemma_units_apart(t, words(text));
}

} // verus!
