//! What holds of SentencePiece as a whole: decoding undoes encoding, but for
//! the space that a text gets before it.

use vstd::prelude::*;
use vstd::seq_lib::lemma_flatten_concat;
use vstd::utf8::{encode_utf8, encode_utf8_decode_utf8, encode_utf8_valid_utf8};

use crate::text::lemma_encode_concat;
use crate::tokenizer::bytes::byte_value;
use crate::tokenizer::candidates::by_score;
use crate::tokenizer::merge::{merged_pieces, merging_keeps_text, singles, singles_join};
use crate::tokenizer::spm::{byte_place, marked, unmarked, SpmView, SPACE, TYPE_BYTE, TYPE_CONTROL};
use crate::tokenizer::vocab::{lemma_place, number_of};

verus! {

/// Whether the token with an id shows as its text.
pub open spec fn normal(t: SpmView, id: u32) -> bool {
    t.types[id as int] != TYPE_BYTE && t.types[id as int] != TYPE_CONTROL
}

/// Whether a piece shows as its text when it is decoded: it is a token that
/// does, or it has no token and is spelled in byte tokens. A marker can not be
/// spelled, since a marker that is not part of a token does not turn back into
/// a space.
pub open spec fn shows(t: SpmView, piece: Seq<char>) -> bool {
    match number_of(t.tokens, piece) {
        Some(id) => normal(t, id),
        None => !piece.contains(SPACE) && forall|i: int|
            0 <= i < encode_utf8(piece).len() ==> byte_place(
                t.tokens,
                t.types,
                #[trigger] encode_utf8(piece)[i],
            ) is Some,
    }
}

/// Whether every piece of a text shows as its text.
pub open spec fn all_show(t: SpmView, text: Seq<char>) -> bool {
    forall|i: int| 0 <= i < t.pieces(text).len() ==> shows(t, #[trigger] t.pieces(text)[i])
}

proof fn lemma_byte_place(tokens: Seq<Seq<char>>, types: Seq<i32>, b: u8)
    requires
        byte_place(tokens, types, b) is Some,
    ensures
        0 <= byte_place(tokens, types, b)->0 < tokens.len(),
        types[byte_place(tokens, types, b)->0] == TYPE_BYTE,
        byte_value(tokens[byte_place(tokens, types, b)->0]) == Some(b),
    decreases tokens.len(),
{
    let n = tokens.len() - 1;
    if !(types[n] == TYPE_BYTE && byte_value(tokens[n]) == Some(b)) {
        lemma_byte_place(tokens.drop_last(), types, b);
    }
}

/// Decoding goes id by id: two lists of ids, joined, stand for the bytes of the
/// one and then those of the other.
pub proof fn bytes_of_joined(t: SpmView, x: Seq<u32>, y: Seq<u32>)
    ensures
        t.bytes(x + y) == t.bytes(x) + t.bytes(y),
{
    let f = |id: u32| t.id_bytes(id);
    assert((x + y).map_values(f) =~= x.map_values(f) + y.map_values(f));
    lemma_flatten_concat(x.map_values(f), y.map_values(f));
}

proof fn lemma_bytes_one(t: SpmView, id: u32)
    ensures
        t.bytes(seq![id]) == t.id_bytes(id),
{
    let f = |id: u32| t.id_bytes(id);
    assert(seq![id].map_values(f) =~= seq![t.id_bytes(id)]);
    seq![t.id_bytes(id)].lemma_flatten_one_element();
}

/// Bytes that are spelled in byte tokens decode to themselves.
proof fn lemma_spelled(t: SpmView, bytes: Seq<u8>)
    requires
        t.tokens.len() <= 0x1_0000_0000,
        forall|i: int|
            0 <= i < bytes.len() ==> byte_place(t.tokens, t.types, #[trigger] bytes[i]) is Some,
    ensures
        t.bytes(bytes.map_values(|b: u8| t.byte_id(b))) == bytes,
    decreases bytes.len(),
{
    let f = |b: u8| t.byte_id(b);
    if bytes.len() == 0 {
        assert(bytes.map_values(f).map_values(|id: u32| t.id_bytes(id)) =~= seq![]);
        assert(bytes =~= seq![]);
    } else {
        let (init, last) = (bytes.drop_last(), bytes.last());
        lemma_spelled(t, init);
        assert(bytes.map_values(f) =~= init.map_values(f) + seq![f(last)]);
        bytes_of_joined(t, init.map_values(f), seq![f(last)]);
        lemma_bytes_one(t, f(last));
        assert(byte_place(t.tokens, t.types, bytes[bytes.len() - 1]) is Some);
        lemma_byte_place(t.tokens, t.types, last);
        assert(t.id_bytes(f(last)) == seq![last]);
        assert(init + seq![last] =~= bytes);
    }
}

proof fn lemma_piece_bytes(t: SpmView, piece: Seq<char>)
    requires
        t.tokens.len() <= 0x1_0000_0000,
        shows(t, piece),
    ensures
        t.bytes(t.piece_ids(piece)) == encode_utf8(unmarked(piece)),
{
    match number_of(t.tokens, piece) {
        Some(id) => {
            lemma_place(t.tokens, piece);
            lemma_bytes_one(t, id);
        },
        None => {
            lemma_spelled(t, encode_utf8(piece));
            assert(unmarked(piece) =~= piece) by {
                assert forall|i: int| 0 <= i < piece.len() implies piece[i] != SPACE by {
                    assert(piece.contains(piece[i]));
                }
            }
        },
    }
}

proof fn lemma_pieces_bytes(t: SpmView, p: Seq<Seq<char>>)
    requires
        t.tokens.len() <= 0x1_0000_0000,
        forall|i: int| 0 <= i < p.len() ==> shows(t, #[trigger] p[i]),
    ensures
        t.bytes(p.flat_map(|x: Seq<char>| t.piece_ids(x))) == encode_utf8(unmarked(p.flatten())),
    decreases p.len(),
{
    let f = |x: Seq<char>| t.piece_ids(x);
    if p.len() == 0 {
        assert(p.map_values(f) =~= seq![]);
        assert(p.flat_map(f).map_values(|id: u32| t.id_bytes(id)) =~= seq![]);
        assert(unmarked(p.flatten()) =~= seq![]);
    } else {
        let (init, last) = (p.drop_last(), p.last());
        lemma_pieces_bytes(t, init);
        lemma_piece_bytes(t, last);
        assert(init.push(last) =~= p);
        init.lemma_flat_map_push(f, last);
        bytes_of_joined(t, init.flat_map(f), t.piece_ids(last));
        init.lemma_flatten_push(last);
        assert(unmarked(init.flatten() + last) =~= unmarked(init.flatten()) + unmarked(last));
        lemma_encode_concat(unmarked(init.flatten()), unmarked(last));
    }
}

/// Decoding undoes encoding but for the space before the text: a text whose
/// pieces all show as their text comes back with that space before it, and
/// with a space in place of each marker that it had.
pub proof fn decode_of_encode(t: SpmView, text: Seq<char>)
    requires
        t.tokens.len() <= 0x1_0000_0000,
        text.len() > 0,
        all_show(t, text),
    ensures
        t.decode(t.encode(text)) == seq![' '] + unmarked(text),
        !text.contains(SPACE) ==> t.decode(t.encode(text)) == seq![' '] + text,
{
    let m = marked(text);
    lemma_pieces_bytes(t, t.pieces(text));
    merging_keeps_text(singles(m), by_score(t.score()));
    singles_join(m);
    assert(unmarked(m) =~= seq![' '] + unmarked(text));
    encode_utf8_valid_utf8(unmarked(m));
    encode_utf8_decode_utf8(unmarked(m));
    if !text.contains(SPACE) {
        assert(unmarked(text) =~= text) by {
            assert forall|i: int| 0 <= i < text.len() implies text[i] != SPACE by {
                assert(text.contains(text[i]));
            }
        }
    }
}

/// Every id of an encoded text is one of the vocabulary's, or the unknown id.
pub proof fn encoded_ids_are_known(t: SpmView, text: Seq<char>, i: int)
    requires
        0 <= i < t.encode(text).len(),
    ensures
        t.encode(text)[i] < t.tokens.len() || t.encode(text)[i] == t.unk,
{
    lemma_ids_known(t, t.pieces(text), i);
}

proof fn lemma_ids_known(t: SpmView, p: Seq<Seq<char>>, i: int)
    requires
        0 <= i < p.flat_map(|x: Seq<char>| t.piece_ids(x)).len(),
    ensures
        ({
            let id = p.flat_map(|x: Seq<char>| t.piece_ids(x))[i];
            id < t.tokens.len() || id == t.unk
        }),
    decreases p.len(),
{
    let f = |x: Seq<char>| t.piece_ids(x);
    if p.len() == 0 {
        assert(p.map_values(f) =~= seq![]);
    } else {
        let (init, last) = (p.drop_last(), p.last());
        assert(init.push(last) =~= p);
        init.lemma_flat_map_push(f, last);
        let k = i - init.flat_map(f).len();
        if k < 0 {
            lemma_ids_known(t, init, i);
        } else {
            lemma_place(t.tokens, last);
            if number_of(t.tokens, last) is None {
                let b = encode_utf8(last)[k];
                assert(t.piece_ids(last)[k] == t.byte_id(b));
                if byte_place(t.tokens, t.types, b) is Some {
                    lemma_byte_place(t.tokens, t.types, b);
                }
            }
        }
    }
}

/// Whether merging can arrive at a piece: a character, or a token.
pub open spec fn reachable(t: SpmView, piece: Seq<char>) -> bool {
    piece.len() == 1 || number_of(t.tokens, piece) is Some
}

/// Whether a vocabulary holds the marker and a token for every byte, and
/// merging arrives at no byte or control token.
pub open spec fn covers_bytes(t: SpmView) -> bool {
    &&& t.tokens.len() <= 0x1_0000_0000
    &&& number_of(t.tokens, seq![SPACE]) is Some
    &&& forall|b: u8| (#[trigger] byte_place(t.tokens, t.types, b)) is Some
    &&& forall|c: char|
        (#[trigger] number_of(t.tokens, seq![c])) matches Some(id) ==> normal(t, id)
    &&& forall|x: Seq<char>, y: Seq<char>|
        reachable(t, x) && reachable(t, y) ==> ((#[trigger] number_of(t.tokens, x + y)) matches Some(
            id,
        ) ==> normal(t, id))
}

/// A vocabulary that holds the marker and every byte shows every text, so that
/// any text without markers comes back with a space before it.
pub proof fn decode_of_encode_any(t: SpmView, text: Seq<char>)
    requires
        covers_bytes(t),
        text.len() > 0,
    ensures
        t.decode(t.encode(text)) == seq![' '] + unmarked(text),
        !text.contains(SPACE) ==> t.decode(t.encode(text)) == seq![' '] + text,
{
    let ok = |p: Seq<char>|
        reachable(t, p) && (number_of(t.tokens, p) matches Some(id) ==> normal(t, id));
    let prio = by_score(t.score());
    let p0 = singles(marked(text));
    assert forall|i: int| 0 <= i < p0.len() implies ok(#[trigger] p0[i]) by {
        let c = marked(text)[i];
        assert(p0[i] == seq![c]);
        assert(number_of(t.tokens, seq![c]) is Some ==> normal(
            t,
            number_of(t.tokens, seq![c])->0,
        ));
    }
    assert forall|x: Seq<char>, y: Seq<char>|
        ok(x) && ok(y) && #[trigger] prio(x, y) is Some implies ok(x + y) by {
        assert(number_of(t.tokens, x + y) is Some);
    }
    merged_pieces(p0, prio, ok);
    assert forall|i: int| 0 <= i < t.pieces(text).len() implies shows(
        t,
        #[trigger] t.pieces(text)[i],
    ) by {
        let p = t.pieces(text)[i];
        assert(ok(p));
        if number_of(t.tokens, p) is None {
            assert(p.len() == 1);
            assert(p =~= seq![p[0]]);
            if p.contains(SPACE) {
                assert(p[0] == SPACE);
            }
        }
    }
    decode_of_encode(t, text);
}

/// Control tokens render to nothing: they may stand before and behind a list
/// of ids without changing what it decodes to.
pub proof fn control_tokens_render_empty(t: SpmView, first: u32, ids: Seq<u32>, last: u32)
    requires
        first < t.tokens.len(),
        last < t.tokens.len(),
        t.types[first as int] == TYPE_CONTROL,
        t.types[last as int] == TYPE_CONTROL,
    ensures
        t.decode(seq![first] + ids + seq![last]) == t.decode(ids),
{
    bytes_of_joined(t, seq![first] + ids, seq![last]);
    bytes_of_joined(t, seq![first], ids);
    lemma_bytes_one(t, first);
    lemma_bytes_one(t, last);
    assert(t.bytes(seq![first] + ids + seq![last]) =~= t.bytes(ids));
}

} // verus!
