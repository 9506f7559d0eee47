//! The parts that others are made of: tokenizers of either kind, matrices, the
//! plan of a pass, and what is decided for the GPU.

use vstd::prelude::*;
use vstd::utf8::encode_utf8;

use crate::gguf::dtype::Element;
use crate::gguf::GgmlType;
use crate::laws::merging::{
    by_rank, characters, is_last_place, is_run, lemma_rank_run, pair_ranks,
};
use crate::math::gpu::{quant_kernel, threadgroup_width, Residency};
use crate::model::config::Config;
use crate::model::plan::{
    buffer_len, lemma_output_op, lemma_plan_op, plan, Buf, Mat, Norm, Op,
};
use crate::model::weights::Matrix;
use crate::text::{lemma_char_at, utf8_len};
use crate::tokenizer::spm::{Spm, SpmView};
use crate::tokenizer::vocab::lemma_place;
use crate::tokenizer::{Bpe, Tokenizer, TokenizerError};

verus! {

/// A tokenizer of either kind answers as the one that it holds. Only SentencePiece
/// may ask for a first token before a prompt.
pub proof fn tokenizers_answer_as_their_kind(
    t: &Tokenizer,
    bpe: &Bpe,
    spm: &Spm,
    text: &str,
    ids: &[u32],
    encoded: (Vec<u32>, Vec<u32>, Vec<u32>),
    decoded: (String, String, String),
    size: usize,
    bos: u32,
    eos: u32,
    asks: bool,
)
    requires
        call_ensures(Tokenizer::encode, (t, text), encoded.0),
        call_ensures(Bpe::encode, (bpe, text), encoded.1),
        call_ensures(Spm::encode, (spm, text), encoded.2),
        call_ensures(Tokenizer::decode, (t, ids), decoded.0),
        call_ensures(Bpe::decode, (bpe, ids), decoded.1),
        call_ensures(Spm::decode, (spm, ids), decoded.2),
        call_ensures(Tokenizer::vocab_size, (t,), size),
        call_ensures(Tokenizer::bos, (t,), bos),
        call_ensures(Tokenizer::eos, (t,), eos),
        call_ensures(Tokenizer::add_bos, (t,), asks),
    ensures
        *t == Tokenizer::Bpe(*bpe) ==> {
            &&& encoded.0@ == encoded.1@
            &&& decoded.0@ == decoded.1@
            &&& size == bpe@.tokens.len()
            &&& bos == bpe@.bos
            &&& eos == bpe@.eos
            &&& !asks
        },
        *t == Tokenizer::Spm(*spm) ==> {
            &&& encoded.0@ == encoded.2@
            &&& decoded.0@ == decoded.2@
            &&& size == spm@.tokens.len()
            &&& bos == spm@.bos
            &&& eos == spm@.eos
            &&& asks == spm@.add_bos
        },
{
}

/// Each kind of tokenizer gives back what it was built of.
pub proof fn tokenizers_keep_their_parts(
    bpe: &Bpe,
    spm: &Spm,
    sizes: (usize, usize),
    first: (u32, u32),
    last: (u32, u32),
    asks: bool,
)
    requires
        call_ensures(Bpe::vocab_size, (bpe,), sizes.0),
        call_ensures(Bpe::bos, (bpe,), first.0),
        call_ensures(Bpe::eos, (bpe,), last.0),
        call_ensures(Spm::vocab_size, (spm,), sizes.1),
        call_ensures(Spm::bos, (spm,), first.1),
        call_ensures(Spm::eos, (spm,), last.1),
        call_ensures(Spm::add_bos, (spm,), asks),
    ensures
        sizes.0 == bpe@.tokens.len(),
        first.0 == bpe@.bos,
        last.0 == bpe@.eos,
        sizes.1 == spm@.tokens.len(),
        first.1 == spm@.bos,
        last.1 == spm@.eos,
        asks == spm@.add_bos,
{
}

/// A SentencePiece tokenizer is built of lists of one length, and of these.
pub proof fn spm_is_built_of_its_lists(
    tokens: Vec<String>,
    scores: Vec<u32>,
    types: Vec<i32>,
    bos: u32,
    eos: u32,
    unk: u32,
    add_bos: bool,
    r: Result<Spm, TokenizerError>,
)
    requires
        call_ensures(Spm::build, (tokens, scores, types, bos, eos, unk, add_bos), r),
    ensures
        r is Ok <==> tokens@.len() == scores@.len() == types@.len(),
        r is Ok ==> r->Ok_0@ == (SpmView {
            tokens: tokens@.map_values(|s: String| s@),
            scores: scores@,
            types: types@,
            bos,
            eos,
            unk,
            add_bos,
        }),
{
    assert(crate::gguf::format::texts(tokens@) =~= tokens@.map_values(|s: String| s@));
}

/// A byte-level BPE tokenizer is built of rules that all have a space, and of
/// these.
pub proof fn bpe_is_built_of_its_rules(
    tokens: Vec<String>,
    rules: &[String],
    bos: u32,
    eos: u32,
    unk: u32,
    r: Result<Bpe, TokenizerError>,
)
    requires
        call_ensures(Bpe::build, (tokens, rules, bos, eos, unk), r),
    ensures
        r is Ok <==> forall|i: int|
            0 <= i < rules@.len() ==> (#[trigger] rules@[i])@.contains(' '),
        r is Ok ==> {
            &&& r->Ok_0@.tokens == tokens@.map_values(|s: String| s@)
            &&& r->Ok_0@.rules == rules@.map_values(|s: String| s@)
            &&& r->Ok_0@.bos == bos
            &&& r->Ok_0@.eos == eos
            &&& r->Ok_0@.unk == unk
        },
{
    let list = crate::gguf::format::texts(rules@);
    assert(list =~= rules@.map_values(|s: String| s@));
    assert(crate::gguf::format::texts(tokens@) =~= tokens@.map_values(|s: String| s@));
    if r is Ok {
        crate::laws::files::lemma_all_formed(list);
        assert forall|i: int| 0 <= i < rules@.len() implies (#[trigger] rules@[i])@.contains(
            ' ',
        ) by {
            assert(list[i].contains(' '));
        }
    } else if forall|i: int| 0 <= i < rules@.len() ==> (#[trigger] rules@[i])@.contains(' ') {
        assert forall|i: int| 0 <= i < list.len() implies (#[trigger] list[i]).contains(' ') by {
            assert(rules@[i]@.contains(' '));
        }
        crate::laws::files::lemma_none_malformed(list);
    }
}

/// The id of a piece is the last place at which the vocabulary has it.
pub proof fn pieces_have_their_id(t: &Spm, piece: &str, id: Option<u32>)
    requires
        t@.tokens.len() <= 0x1_0000_0000,
        call_ensures(Spm::piece_id, (t, piece), id),
    ensures
        id matches Some(i) ==> is_last_place(t@.tokens, piece@, i as int),
        id is None ==> forall|i: int|
            0 <= i < t@.tokens.len() ==> #[trigger] t@.tokens[i] != piece@,
{
    lemma_place(t@.tokens, piece@);
}

/// The pieces of a word are what a run of merges by rank leaves of its characters.
pub proof fn word_pieces_are_merged_by_rank(t: &Bpe, word: &str, pieces: Vec<String>)
    requires
        t@.rules.len() <= 0x1_0000_0000,
        call_ensures(Bpe::bpe, (t, word), pieces),
    ensures
        exists|states: Seq<Seq<Seq<char>>>|
            {
                &&& #[trigger] is_run(by_rank(t@.rules), states)
                &&& states[0] == characters(word@)
                &&& forall|i: int, r: int| !#[trigger]
                    pair_ranks(t@.rules, states.last(), i, r)
                &&& states.last() == pieces@.map_values(|s: String| s@)
            },
{
    let states = lemma_rank_run(t@, word@);
    assert(crate::gguf::format::texts(pieces@) =~= pieces@.map_values(|s: String| s@));
    assert(is_run(by_rank(t@.rules), states));
}

/// The bytes of row `m` of a matrix are those of its blocks, one behind the other,
/// and lie behind those of the rows before it; and decoding a row gives its
/// elements.
pub proof fn rows_lie_behind_each_other(
    w: &Matrix<'_>,
    m: usize,
    b: usize,
    row: &[u8],
    n: usize,
    block: &[u8],
    out: &mut [Element],
    i: int,
    shape: (usize, usize, GgmlType),
    bytes: &[u8],
)
    requires
        m < w@.rows,
        0 <= i < old(out)@.len(),
        call_ensures(Matrix::row, (w, m), row),
        call_ensures(Matrix::row_blocks, (w,), n),
        call_ensures(Matrix::block, (w, m, b), block),
        call_ensures(Matrix::dequant_row, (w, m, out), ()),
        call_ensures(Matrix::rows, (w,), shape.0),
        call_ensures(Matrix::cols, (w,), shape.1),
        call_ensures(Matrix::dtype, (w,), shape.2),
        call_ensures(Matrix::bytes, (w,), bytes),
    ensures
        shape.0 == w@.rows,
        shape.1 == w@.cols,
        shape.2 == w@.dtype,
        bytes@ == w@.bytes,
        n == w@.cols / w@.dtype.elems(),
        row@.len() == n * w@.dtype.bytes(),
        row@ == w@.bytes.subrange(m * row@.len(), m * row@.len() + row@.len()),
        block@ == row@.subrange(b * w@.dtype.bytes(), b * w@.dtype.bytes() + w@.dtype.bytes()),
        final(out)@.len() == old(out)@.len(),
        final(out)@[i] == w@.dtype.element(row@, i),
{
}

/// The plan of a pass: the embedding; in every layer its sixteen operations, in
/// this order; then the last norm and the product that are the logits.
pub proof fn plan_is_layer_by_layer(c: &Config, ops: Vec<Op>, l: usize)
    requires
        call_ensures(plan, (c,), ops),
        l < c.n_layer,
    ensures
        ops@.len() == 16 * c.n_layer + 3,
        ops@[0] == Op::Embed,
        ops@[16 * l + 1] == (Op::RmsNorm { norm: Norm::Attn(l), src: Buf::X, dst: Buf::Normed }),
        ops@[16 * l + 2] == (Op::MatVec { mat: Mat::Q(l), src: Buf::Normed, dst: Buf::Q }),
        ops@[16 * l + 3] == (Op::MatVec { mat: Mat::K(l), src: Buf::Normed, dst: Buf::K }),
        ops@[16 * l + 4] == (Op::MatVec { mat: Mat::V(l), src: Buf::Normed, dst: Buf::V }),
        ops@[16 * l + 5] == (Op::Rope { buf: Buf::Q, heads: c.n_head }),
        ops@[16 * l + 6] == (Op::Rope { buf: Buf::K, heads: c.n_head_kv }),
        ops@[16 * l + 7] == (Op::Append { layer: l }),
        ops@[16 * l + 8] == (Op::Attend { layer: l }),
        ops@[16 * l + 9] == (Op::MatVec {
            mat: Mat::AttnOutput(l),
            src: Buf::Att,
            dst: Buf::Proj,
        }),
        ops@[16 * l + 10] == (Op::Accumulate { src: Buf::Proj, dst: Buf::X }),
        ops@[16 * l + 11] == (Op::RmsNorm { norm: Norm::Ffn(l), src: Buf::X, dst: Buf::Normed }),
        ops@[16 * l + 12] == (Op::MatVec { mat: Mat::Gate(l), src: Buf::Normed, dst: Buf::Gate }),
        ops@[16 * l + 13] == (Op::MatVec { mat: Mat::Up(l), src: Buf::Normed, dst: Buf::Up }),
        ops@[16 * l + 14] == Op::SwiGlu,
        ops@[16 * l + 15] == (Op::MatVec { mat: Mat::Down(l), src: Buf::Glu, dst: Buf::Down }),
        ops@[16 * l + 16] == (Op::Accumulate { src: Buf::Down, dst: Buf::X }),
        ops@[16 * c.n_layer + 1] == (Op::RmsNorm {
            norm: Norm::Output,
            src: Buf::X,
            dst: Buf::Last,
        }),
        ops@[16 * c.n_layer + 2] == (Op::MatVec {
            mat: Mat::Output,
            src: Buf::Last,
            dst: Buf::Logits,
        }),
{
    crate::laws::forward::lemma_layer_ops(*c, l);
    lemma_output_op(*c);
    lemma_plan_op(*c, 0);
    lemma_plan_op(*c, 16 * c.n_layer + 1);
}

/// The buffers of a pass: as long as a row of the cache for keys and values, as
/// the feed-forward layer for what it works in, as the vocabulary for the logits,
/// and as the embedding for all others.
pub proof fn buffers_have_their_lengths(c: &Config, b: Buf, n: usize)
    requires
        c.n_head > 0,
        call_ensures(buffer_len, (c, b), n),
    ensures
        b == Buf::K || b == Buf::V ==> n == c.n_head_kv * (c.n_embd as int / c.n_head as int),
        b == Buf::Gate || b == Buf::Up || b == Buf::Glu ==> n == c.n_ff,
        b == Buf::Logits ==> n == c.vocab_size,
        b == Buf::X || b == Buf::Normed || b == Buf::Q || b == Buf::Att || b == Buf::Proj || b
            == Buf::Down || b == Buf::Last ==> n == c.n_embd,
{
}

/// The GPU: a kernel is named for its type; a threadgroup is as wide as there are
/// threads, but no wider than it may be, and never of no width.
pub proof fn gpu_kernels_fit(t: GgmlType, name: &'static str, max: u64, n: u64, w: u64)
    requires
        call_ensures(quant_kernel, (t,), name),
        call_ensures(threadgroup_width, (max, n), w),
    ensures
        t == GgmlType::Q8_0 ==> name@ == "matvec_q8_0"@,
        t == GgmlType::Q4_0 ==> name@ == "matvec_q4_0"@,
        w >= 1,
        max >= 1 ==> w <= max,
        n >= 1 ==> w <= n,
        max >= 1 && n >= 1 ==> w == max || w == n,
{
}

/// The weights on the GPU: a buffer serves a weight exactly where the last that
/// was asked for under its name had its size. The first time it does not.
pub proof fn buffers_serve_their_weight(
    fresh: Residency,
    r: &mut Residency,
    name: &str,
    len: usize,
    reuse: bool,
    other: Seq<char>,
)
    requires
        call_ensures(Residency::new, (), fresh),
        call_ensures(Residency::ask, (r, name, len), reuse),
    ensures
        !fresh@.contains_key(other),
        reuse <==> old(r)@.contains_key(name@) && old(r)@[name@] == len,
        final(r)@.contains_key(name@) && final(r)@[name@] == len,
        other != name@ ==> (final(r)@.contains_key(other) <==> old(r)@.contains_key(other)),
        other != name@ && old(r)@.contains_key(other) ==> final(r)@[other] == old(r)@[other],
{
}

/// The first byte of a character tells how many bytes it has.
pub proof fn first_byte_tells_the_width(c: char, n: usize)
    requires
        call_ensures(utf8_len, (encode_utf8(seq![c])[0],), n),
    ensures
        n == encode_utf8(seq![c]).len(),
{
    let s = seq![c];
    lemma_char_at(s, 0);
    assert(s.take(0) =~= seq![]);
    assert(s.take(1) =~= s);
    assert(encode_utf8(s.take(0)).len() == 0);
}

} // verus!
