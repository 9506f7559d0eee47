//! Model files: which value of the metadata each number of a model is, and
//! which tensor each weight.

use vstd::prelude::*;

use crate::decimal::{decimal, digit_char, to_decimal};
use crate::gguf::format::{
    dims_product, find_tensor, find_value, MetaValue, MetaView, TensorView,
};
use crate::gguf::reader::TensorInfo;
use crate::gguf::{GgmlType, GgufError, GgufFile, Vector};
use crate::model::config::{config_of, Config, ConfigError};
use crate::model::llama::{Model, ModelError};
use crate::model::weights::{
    layer_name, layer_of, layers_of, weights_of, LayerView, LayerWeights, Matrix, MatrixView,
    WeightError, Weights, WeightsView,
};
use crate::tokenizer::bpe::first_malformed;
use crate::tokenizer::{tokenizer_of, Tokenizer, TokenizerError, TokenizerView};

verus! {

/// The value of a key is that of the last entry with the key.
pub proof fn value_is_that_of_the_last_entry(g: GgufFile, key: Seq<char>)
    ensures
        match g.value(key) {
            Some(v) => exists|i: int|
                0 <= i < g.content().entries.len() && #[trigger] g.content().entries[i] == (key, v)
                    && forall|j: int|
                    i < j < g.content().entries.len() ==> (#[trigger] g.content().entries[j]).0
                        != key,
            None => forall|j: int|
                0 <= j < g.content().entries.len() ==> (#[trigger] g.content().entries[j]).0
                    != key,
        },
{
    lemma_last_entry(g.content().entries, key);
}

proof fn lemma_last_entry(entries: Seq<(Seq<char>, MetaView)>, key: Seq<char>)
    ensures
        match find_value(entries, key) {
            Some(v) => exists|i: int|
                0 <= i < entries.len() && #[trigger] entries[i] == (key, v) && forall|j: int|
                    i < j < entries.len() ==> (#[trigger] entries[j]).0 != key,
            None => forall|j: int|
                0 <= j < entries.len() ==> (#[trigger] entries[j]).0 != key,
        },
    decreases entries.len(),
{
    if entries.len() > 0 {
        let (init, n) = (entries.drop_last(), entries.len() - 1);
        lemma_last_entry(init, key);
        assert(forall|j: int| 0 <= j < n ==> entries[j] == #[trigger] init[j]);
        if entries.last().0 == key {
            assert(entries[n] == (key, entries.last().1));
        } else {
            match find_value(init, key) {
                Some(v) => {
                    let i = choose|i: int|
                        0 <= i < init.len() && #[trigger] init[i] == (key, v) && forall|j: int|
                            i < j < init.len() ==> (#[trigger] init[j]).0 != key;
                    assert(entries[i] == (key, v));
                    assert forall|j: int| i < j < entries.len() implies (
                    #[trigger] entries[j]).0 != key by {
                        if j < n {
                            assert(init[j].0 != key);
                        }
                    }
                },
                None => {
                    assert forall|j: int| 0 <= j < entries.len() implies (
                    #[trigger] entries[j]).0 != key by {
                        if j < n {
                            assert(init[j].0 != key);
                        }
                    }
                },
            }
        }
    }
}

/// The metadata are looked up by key, and the tensors by name; the list of tensors
/// is the index of the file, in its order.
pub proof fn index_is_looked_up(
    g: &GgufFile,
    key: &str,
    v: Option<&MetaValue>,
    t: Option<&TensorInfo>,
    all: &[TensorInfo],
    i: int,
)
    requires
        call_ensures(GgufFile::metadata, (g, key), v),
        call_ensures(GgufFile::tensor_info, (g, key), t),
        call_ensures(GgufFile::tensors, (g,), all),
    ensures
        v is Some <==> g.value(key@) is Some,
        v matches Some(MetaValue::U32(x)) ==> g.value(key@) == Some(MetaView::U32(*x)),
        v matches Some(MetaValue::F32(x)) ==> g.value(key@) == Some(MetaView::F32(*x)),
        v matches Some(MetaValue::Bool(x)) ==> g.value(key@) == Some(MetaView::Bool(*x)),
        v matches Some(MetaValue::Str(x)) ==> g.value(key@) == Some(MetaView::Str(x@)),
        v matches Some(MetaValue::ArrI32(x)) ==> g.value(key@) == Some(MetaView::ArrI32(x@)),
        v matches Some(MetaValue::ArrF32(x)) ==> g.value(key@) == Some(MetaView::ArrF32(x@)),
        all@.len() == g.content().tensors.len(),
        0 <= i < all@.len() ==> {
            &&& all@[i].name@ == g.content().tensors[i].name
            &&& all@[i].dims@ == g.content().tensors[i].dims
            &&& all@[i].dtype == g.content().tensors[i].dtype
            &&& all@[i].offset == g.content().tensors[i].offset
        },
        t matches Some(x) ==> x.name@ == key@ && exists|k: int|
            0 <= k < all@.len() && #[trigger] all@[k]@ == x@ && forall|j: int|
                k < j < all@.len() ==> (#[trigger] all@[j]).name@ != key@,
        t is None ==> forall|j: int| 0 <= j < all@.len() ==> (#[trigger] all@[j]).name@ != key@,
{
    lemma_last_tensor(g.content().tensors, key@);
    assert forall|j: int| 0 <= j < all@.len() implies (#[trigger] all@[j]).name@
        == g.content().tensors[j].name by {
        assert(all@[j]@ == g.content().tensors[j]);
    }
    if 0 <= i < all@.len() {
        assert(all@[i]@ == g.content().tensors[i]);
    }
    if t is Some {
        let k = find_tensor(g.content().tensors, key@)->0;
        assert(all@[k]@ == g.content().tensors[k]);
    }
}

/// A number, a text or a list is given for a key exactly where the value of the
/// key is of that kind, and it is that value.
pub proof fn lookups_give_the_value(
    g: &GgufFile,
    key: &str,
    number: Option<u32>,
    single: Option<u32>,
    text: Option<&str>,
    texts: Option<&[String]>,
    signed: Option<&[i32]>,
    singles: Option<&[u32]>,
)
    requires
        call_ensures(GgufFile::get_u32, (g, key), number),
        call_ensures(GgufFile::get_f32, (g, key), single),
        call_ensures(GgufFile::get_str, (g, key), text),
        call_ensures(GgufFile::get_arr_str, (g, key), texts),
        call_ensures(GgufFile::get_arr_i32, (g, key), signed),
        call_ensures(GgufFile::get_arr_f32, (g, key), singles),
    ensures
        number is Some <==> (g.value(key@) is Some && g.value(key@)->0 is U32),
        number is Some ==> g.value(key@) == Some(MetaView::U32(number->0)),
        number == g.u32_value(key@),
        single is Some <==> (g.value(key@) is Some && g.value(key@)->0 is F32),
        single is Some ==> g.value(key@) == Some(MetaView::F32(single->0)),
        single == g.f32_value(key@),
        text is Some <==> (g.value(key@) is Some && g.value(key@)->0 is Str),
        text is Some ==> g.value(key@) == Some(MetaView::Str(text->0@)),
        text is Some ==> g.str_value(key@) == Some(text->0@),
        text is None ==> g.str_value(key@) is None,
        texts is Some <==> (g.value(key@) is Some && g.value(key@)->0 is ArrStr),
        texts is Some ==> g.value(key@) == Some(
            MetaView::ArrStr(texts->0@.map_values(|s: String| s@)),
        ),
        texts is Some ==> g.strs_value(key@) == Some(texts->0@.map_values(|s: String| s@)),
        texts is None ==> g.strs_value(key@) is None,
        signed is Some <==> (g.value(key@) is Some && g.value(key@)->0 is ArrI32),
        signed is Some ==> g.value(key@) == Some(MetaView::ArrI32(signed->0@)),
        signed is Some ==> g.i32s_value(key@) == Some(signed->0@),
        signed is None ==> g.i32s_value(key@) is None,
        singles is Some <==> (g.value(key@) is Some && g.value(key@)->0 is ArrF32),
        singles is Some ==> g.value(key@) == Some(MetaView::ArrF32(singles->0@)),
        singles is Some ==> g.f32s_value(key@) == Some(singles->0@),
        singles is None ==> g.f32s_value(key@) is None,
{
    if texts is Some {
        assert(crate::gguf::format::texts(texts->0@) =~= texts->0@.map_values(|s: String| s@));
    }
}

/// The hyperparameters of a model are the values of their keys. The precision
/// of the norms is 1e-5 and the base of the rotations 10000 where the file does
/// not state them; every other key must be there.
pub proof fn config_is_what_the_file_states(g: &GgufFile, r: Result<Config, ConfigError>)
    requires
        call_ensures(Config::from_gguf, (g,), r),
    ensures
        r is Ok ==> ({
            let c = r->Ok_0;
            &&& g.value("llama.block_count"@) == Some(MetaView::U32(c.n_layer as u32))
            &&& c.n_layer <= u32::MAX
            &&& g.value("llama.attention.head_count"@) == Some(MetaView::U32(c.n_head as u32))
            &&& c.n_head <= u32::MAX
            &&& g.value("llama.attention.head_count_kv"@) == Some(MetaView::U32(c.n_head_kv as u32))
            &&& c.n_head_kv <= u32::MAX
            &&& g.value("llama.embedding_length"@) == Some(MetaView::U32(c.n_embd as u32))
            &&& c.n_embd <= u32::MAX
            &&& g.value("llama.feed_forward_length"@) == Some(MetaView::U32(c.n_ff as u32))
            &&& c.n_ff <= u32::MAX
            &&& g.value("llama.context_length"@) == Some(MetaView::U32(c.context_length as u32))
            &&& c.context_length <= u32::MAX
            &&& g.value("llama.rope.dimension_count"@) == Some(MetaView::U32(c.rope_dim as u32))
            &&& c.rope_dim <= u32::MAX
            &&& g.value("tokenizer.ggml.tokens"@) is Some
            &&& g.value("tokenizer.ggml.tokens"@)->0 matches MetaView::ArrStr(tokens)
            &&& c.vocab_size == tokens.len() as usize
            &&& g.value("general.architecture"@) == Some(MetaView::Str("llama"@))
            &&& c.rms_eps == (match g.value("llama.attention.layer_norm_rms_epsilon"@) {
                Some(MetaView::F32(x)) => x,
                _ => 0x3727_C5AC,
            })
            &&& c.rope_freq_base == (match g.value("llama.rope.freq_base"@) {
                Some(MetaView::F32(x)) => x,
                _ => 0x461C_4000,
            })
        }),
        r == Err::<Config, ConfigError>(ConfigError::UnsupportedArchitecture) <==> g.value(
            "general.architecture"@,
        ) != Some(MetaView::Str("llama"@)),
        r is Ok <==> {
            &&& g.value("general.architecture"@) == Some(MetaView::Str("llama"@))
            &&& g.strs_value("tokenizer.ggml.tokens"@) is Some
            &&& g.u32_value("llama.block_count"@) is Some
            &&& g.u32_value("llama.attention.head_count"@) is Some
            &&& g.u32_value("llama.attention.head_count_kv"@) is Some
            &&& g.u32_value("llama.embedding_length"@) is Some
            &&& g.u32_value("llama.feed_forward_length"@) is Some
            &&& g.u32_value("llama.context_length"@) is Some
            &&& g.u32_value("llama.rope.dimension_count"@) is Some
        },
        r == Err::<Config, ConfigError>(ConfigError::MissingTokens) ==> g.strs_value(
            "tokenizer.ggml.tokens"@,
        ) is None,
        r == Err::<Config, ConfigError>(ConfigError::MissingBlockCount) ==> g.u32_value(
            "llama.block_count"@,
        ) is None,
        r == Err::<Config, ConfigError>(ConfigError::MissingHeadCount) ==> g.u32_value(
            "llama.attention.head_count"@,
        ) is None,
        r == Err::<Config, ConfigError>(ConfigError::MissingHeadCountKv) ==> g.u32_value(
            "llama.attention.head_count_kv"@,
        ) is None,
        r == Err::<Config, ConfigError>(ConfigError::MissingEmbeddingLength) ==> g.u32_value(
            "llama.embedding_length"@,
        ) is None,
        r == Err::<Config, ConfigError>(ConfigError::MissingFeedForwardLength) ==> g.u32_value(
            "llama.feed_forward_length"@,
        ) is None,
        r == Err::<Config, ConfigError>(ConfigError::MissingContextLength) ==> g.u32_value(
            "llama.context_length"@,
        ) is None,
        r == Err::<Config, ConfigError>(ConfigError::MissingRopeDimensionCount) ==> g.u32_value(
            "llama.rope.dimension_count"@,
        ) is None,
{
}

/// The heads share the embedding evenly, and the query heads the kv heads: query
/// head `h` of `n_head` reads the kv head that lies as far along the `n_head_kv`.
pub proof fn heads_lie_side_by_side(
    c: &Config,
    h: usize,
    dim: usize,
    row: usize,
    group: usize,
    kv: usize,
    span: (usize, usize),
)
    requires
        c.n_head > 0,
        c.n_head_kv > 0,
        c.n_head as int % c.n_head_kv as int == 0,
        h < c.n_head,
        call_ensures(Config::head_dim, (c,), dim),
        call_ensures(Config::kv_dim, (c,), row),
        call_ensures(Config::group, (c,), group),
        call_ensures(Config::kv_head, (c, h), kv),
        call_ensures(Config::head_span, (c, h), span),
    ensures
        dim * c.n_head <= c.n_embd < (dim + 1) * c.n_head,
        dim == c.head_len(),
        row == c.n_head_kv * dim,
        row == c.kv_len(),
        group * c.n_head_kv == c.n_head,
        group == c.group_len(),
        kv * group <= h < (kv + 1) * group,
        kv < c.n_head_kv,
        kv == c.shared_head(h as int),
        span.0 == h * dim,
        span.1 - span.0 == dim,
{
    let (e, n, k) = (c.n_embd as int, c.n_head as int, c.n_head_kv as int);
    assert((e / n) * n <= e && e < (e / n + 1) * n) by (nonlinear_arith)
        requires
            n > 0,
    {
        assert(n * (e / n) + e % n == e);
        assert(0 <= e % n < n);
    }
    assert((n / k) * k == n) by (nonlinear_arith)
        requires
            k > 0,
            n % k == 0,
    {
        assert(k * (n / k) + n % k == n);
    }
    crate::model::config::query_heads_share_evenly(*c, h as int);
}

/// A file loads as the kind of tokenizer that it declares: SentencePiece comes
/// of a file that declares `llama`, and of no other.
pub proof fn tokenizer_is_of_the_declared_kind(
    g: &GgufFile,
    r: Result<Tokenizer, TokenizerError>,
)
    requires
        call_ensures(Tokenizer::from_gguf, (g,), r),
    ensures
        r is Ok ==> (r->Ok_0 is Spm <==> g.value("tokenizer.ggml.model"@) == Some(
            MetaView::Str("llama"@),
        )),
{
}

/// A file that declares another tokenizer model than `llama`, or none, and whose
/// byte-level BPE metadata is complete and well formed, loads as a byte-level BPE
/// tokenizer with the tokens, the rules and the special ids that it states.
pub proof fn undeclared_is_byte_level_bpe(
    g: &GgufFile,
    r: Result<Tokenizer, TokenizerError>,
    tokens: Seq<Seq<char>>,
    rules: Seq<Seq<char>>,
    bos: u32,
    eos: u32,
    unk: u32,
)
    requires
        call_ensures(Tokenizer::from_gguf, (g,), r),
        g.value("tokenizer.ggml.model"@) != Some(MetaView::Str("llama"@)),
        g.value("tokenizer.ggml.tokens"@) == Some(MetaView::ArrStr(tokens)),
        g.value("tokenizer.ggml.merges"@) == Some(MetaView::ArrStr(rules)),
        g.value("tokenizer.ggml.unknown_token_id"@) == Some(MetaView::U32(unk)),
        g.value("tokenizer.ggml.bos_token_id"@) == Some(MetaView::U32(bos)),
        g.value("tokenizer.ggml.eos_token_id"@) == Some(MetaView::U32(eos)),
        forall|i: int| 0 <= i < rules.len() ==> (#[trigger] rules[i]).contains(' '),
    ensures
        r matches Ok(Tokenizer::Bpe(t)) && {
            &&& t@.tokens == tokens
            &&& t@.rules == rules
            &&& t@.bos == bos
            &&& t@.eos == eos
            &&& t@.unk == unk
        },
{
    lemma_none_malformed(rules);
}

/// A file that declares `llama`, and whose SentencePiece metadata is complete
/// and of one length, loads as a SentencePiece tokenizer with the tokens, scores,
/// types and special ids that it states. The unknown id is 0 where the file does
/// not state it, and a prompt starts with the first special token only where the
/// file says so.
pub proof fn declared_is_sentence_piece(
    g: &GgufFile,
    r: Result<Tokenizer, TokenizerError>,
    tokens: Seq<Seq<char>>,
    scores: Seq<u32>,
    types: Seq<i32>,
    bos: u32,
    eos: u32,
)
    requires
        call_ensures(Tokenizer::from_gguf, (g,), r),
        g.value("tokenizer.ggml.model"@) == Some(MetaView::Str("llama"@)),
        g.value("tokenizer.ggml.tokens"@) == Some(MetaView::ArrStr(tokens)),
        g.value("tokenizer.ggml.scores"@) == Some(MetaView::ArrF32(scores)),
        g.value("tokenizer.ggml.token_type"@) == Some(MetaView::ArrI32(types)),
        g.value("tokenizer.ggml.bos_token_id"@) == Some(MetaView::U32(bos)),
        g.value("tokenizer.ggml.eos_token_id"@) == Some(MetaView::U32(eos)),
        tokens.len() == scores.len() == types.len(),
    ensures
        r matches Ok(Tokenizer::Spm(t)) && {
            &&& t@.tokens == tokens
            &&& t@.scores == scores
            &&& t@.types == types
            &&& t@.bos == bos
            &&& t@.eos == eos
            &&& t@.unk == (match g.value("tokenizer.ggml.unknown_token_id"@) {
                Some(MetaView::U32(x)) => x,
                _ => 0,
            })
            &&& t@.add_bos == (g.value("tokenizer.ggml.add_bos_token"@) == Some(
                MetaView::Bool(true),
            ))
        },
{
}

pub(crate) proof fn lemma_none_malformed(rules: Seq<Seq<char>>)
    requires
        forall|i: int| 0 <= i < rules.len() ==> (#[trigger] rules[i]).contains(' '),
    ensures
        first_malformed(rules) is None,
    decreases rules.len(),
{
    if rules.len() > 0 {
        let init = rules.drop_last();
        assert forall|i: int| 0 <= i < init.len() implies (#[trigger] init[i]).contains(' ') by {
            assert(init[i] == rules[i]);
        }
        lemma_none_malformed(init);
        assert(rules[rules.len() - 1] == rules.last());
    }
}

/// A tokenizer of either kind is only made of lists that are there: what is
/// missing from the metadata, or does not agree, is the error.
pub proof fn incomplete_tokenizers_are_refused(g: &GgufFile, r: Result<Tokenizer, TokenizerError>)
    requires
        call_ensures(Tokenizer::from_gguf, (g,), r),
        r is Ok,
    ensures
        g.strs_value("tokenizer.ggml.tokens"@) is Some,
        g.u32_value("tokenizer.ggml.bos_token_id"@) is Some,
        g.u32_value("tokenizer.ggml.eos_token_id"@) is Some,
        r->Ok_0 is Bpe ==> {
            &&& g.strs_value("tokenizer.ggml.merges"@) is Some
            &&& g.u32_value("tokenizer.ggml.unknown_token_id"@) is Some
            &&& forall|i: int|
                0 <= i < g.strs_value("tokenizer.ggml.merges"@)->0.len() ==> (
                #[trigger] g.strs_value("tokenizer.ggml.merges"@)->0[i]).contains(' ')
        },
        r->Ok_0 is Spm ==> {
            &&& g.f32s_value("tokenizer.ggml.scores"@) is Some
            &&& g.i32s_value("tokenizer.ggml.token_type"@) is Some
            &&& g.f32s_value("tokenizer.ggml.scores"@)->0.len() == g.strs_value(
                "tokenizer.ggml.tokens"@,
            )->0.len()
            &&& g.i32s_value("tokenizer.ggml.token_type"@)->0.len() == g.strs_value(
                "tokenizer.ggml.tokens"@,
            )->0.len()
        },
{
    if r->Ok_0 is Bpe {
        lemma_all_formed(g.strs_value("tokenizer.ggml.merges"@)->0);
    }
}

pub(crate) proof fn lemma_all_formed(rules: Seq<Seq<char>>)
    requires
        first_malformed(rules) is None,
    ensures
        forall|i: int| 0 <= i < rules.len() ==> (#[trigger] rules[i]).contains(' '),
    decreases rules.len(),
{
    if rules.len() > 0 {
        let init = rules.drop_last();
        lemma_all_formed(init);
        assert forall|i: int| 0 <= i < rules.len() implies (#[trigger] rules[i]).contains(' ') by {
            if i < init.len() {
                assert(init[i] == rules[i]);
            }
        }
    }
}

/// A number in decimal: one digit below ten, and above, the digits of its tens
/// and the digit of its ones.
pub proof fn decimal_has_its_digits(n: usize, s: String)
    requires
        call_ensures(to_decimal, (n,), s),
    ensures
        s@ == decimal(n as nat),
        n < 10 ==> s@.len() == 1,
        n >= 10 ==> s@.drop_last() == decimal((n / 10) as nat),
        s@.len() > 0,
        s@.last() as int == '0' as int + n as int % 10,
{
    let d = n as int % 10;
    assert(digit_char(d) as u32 == 48 + d);
    if n >= 10 {
        assert(s@.drop_last() =~= decimal((n / 10) as nat));
    }
}

/// The bytes of a tensor are as many as its blocks take, from the place on that
/// the index states for it, counted from the start of the data; the last tensor
/// of a name counts.
pub proof fn tensor_bytes_lie_where_the_index_says(
    g: &GgufFile,
    name: &str,
    r: Result<(&[u8], GgmlType), GgufError>,
)
    requires
        call_ensures(GgufFile::tensor_raw, (g, name), r),
        r is Ok,
    ensures
        exists|i: int|
            #![trigger g.content().tensors[i]]
            {
                let t = g.content().tensors[i];
                let (bytes, dtype) = r->Ok_0;
                let start = g.content().data_start + t.offset;
                let n = product(t.dims);
                &&& 0 <= i < g.content().tensors.len()
                &&& t.name == name@
                &&& forall|j: int|
                    i < j < g.content().tensors.len() ==> (
                    #[trigger] g.content().tensors[j]).name != name@
                &&& dtype == t.dtype
                &&& n % dtype.elems() == 0
                &&& start + n / dtype.elems() * dtype.bytes() <= g.bytes().len()
                &&& bytes@ == g.bytes().subrange(start, start + n / dtype.elems() * dtype.bytes())
            },
{
    lemma_last_tensor(g.content().tensors, name@);
    let i = find_tensor(g.content().tensors, name@)->0;
    let t = g.content().tensors[i];
    lemma_product(t.dims);
}

/// The product of a list of numbers.
pub open spec fn product(dims: Seq<u64>) -> int
    decreases dims.len(),
{
    if dims.len() == 0 {
        1
    } else {
        product(dims.drop_last()) * dims.last()
    }
}

pub(crate) proof fn lemma_product(dims: Seq<u64>)
    ensures
        dims_product(dims) is Some ==> dims_product(dims)->0 == product(dims),
    decreases dims.len(),
{
    if dims.len() > 0 {
        lemma_product(dims.drop_last());
    }
}

pub(crate) proof fn lemma_last_tensor(tensors: Seq<TensorView>, name: Seq<char>)
    ensures
        match find_tensor(tensors, name) {
            Some(i) => 0 <= i < tensors.len() && tensors[i].name == name && forall|j: int|
                i < j < tensors.len() ==> (#[trigger] tensors[j]).name != name,
            None => forall|j: int|
                0 <= j < tensors.len() ==> (#[trigger] tensors[j]).name != name,
        },
    decreases tensors.len(),
{
    if tensors.len() > 0 {
        let (init, n) = (tensors.drop_last(), tensors.len() - 1);
        lemma_last_tensor(init, name);
        assert(forall|j: int| 0 <= j < n ==> tensors[j] == #[trigger] init[j]);
        if tensors.last().name != name {
            assert forall|j: int|
                (match find_tensor(init, name) {
                    Some(i) => i,
                    None => -1,
                }) < j < tensors.len() implies (#[trigger] tensors[j]).name != name by {
                if j < n {
                    assert(init[j].name != name);
                }
            }
        }
    }
}

/// A tensor is bound as a matrix exactly where it can be read and holds whole
/// blocks, and as many bytes as the rows take; it is then those bytes.
pub proof fn matrices_hold_their_rows(
    g: &GgufFile,
    name: &str,
    rows: usize,
    cols: usize,
    r: Result<Matrix, WeightError>,
)
    requires
        call_ensures(Matrix::bind, (g, name, rows, cols), r),
    ensures
        match g.raw(name@) {
            Err(e) => r == Err::<Matrix, WeightError>(WeightError::Tensor(e)),
            Ok((bytes, t)) => if cols as int % t.elems() == 0 && bytes.len() == rows * (cols as int
                / t.elems() * t.bytes()) {
                r is Ok && r->Ok_0@ == (MatrixView {
                    bytes,
                    dtype: t,
                    rows: rows as int,
                    cols: cols as int,
                })
            } else {
                r == Err::<Matrix, WeightError>(WeightError::Shape)
            },
        },
{
}

/// A tensor is bound as a vector exactly where it can be read as single-precision
/// numbers and has as many as were asked for; it is then these.
pub proof fn vectors_hold_their_numbers(
    g: &GgufFile,
    name: &str,
    len: usize,
    numbers: Result<Vector<'_>, GgufError>,
    r: Result<Vector<'_>, WeightError>,
)
    requires
        call_ensures(GgufFile::tensor_f32, (g, name), numbers),
        call_ensures(Vector::bind, (g, name, len), r),
    ensures
        numbers matches Err(e) ==> r is Err && r->Err_0 == WeightError::Tensor(e),
        numbers matches Ok(v) ==> if v@.len() == len {
            r is Ok && r->Ok_0@ == v@
        } else {
            r is Err && r->Err_0 == WeightError::Shape
        },
{
}

/// The weights of a loaded model are those that its file holds for it.
pub proof fn model_weights_are_those_of_its_file<'a, T: Copy>(
    m: &Model<'a, T>,
    r: Result<Weights, WeightError>,
    w: Result<Weights, WeightError>,
)
    requires
        call_ensures(Model::<'a, T>::weights, (m,), r),
        call_ensures(Weights::from_gguf, (&m.gguf, &m.cfg), w),
    ensures
        r is Ok <==> w is Ok,
        r is Ok ==> r->Ok_0@ == w->Ok_0@,
        r is Err ==> r->Err_0 == w->Err_0,
{
}

/// What it is for a matrix to be the tensor of a name: the bytes of the tensor,
/// of its type, in rows of whole blocks.
pub open spec fn is_tensor(
    g: GgufFile,
    name: Seq<char>,
    w: MatrixView,
    rows: int,
    cols: int,
) -> bool {
    &&& g.raw(name) == Ok::<(Seq<u8>, GgmlType), GgufError>((w.bytes, w.dtype))
    &&& w.rows == rows
    &&& w.cols == cols
    &&& cols % w.dtype.elems() == 0
    &&& w.bytes.len() == rows * (cols / w.dtype.elems() * w.dtype.bytes())
}

/// What it is for a list to be the single-precision tensor of a name: number `i`
/// is the one whose four bytes stand at `4 * i`.
pub open spec fn is_vector(g: GgufFile, name: Seq<char>, v: Seq<u32>, len: int) -> bool {
    &&& v.len() == len
    &&& g.raw(name) is Ok
    &&& g.raw(name)->Ok_0.1 == GgmlType::F32
    &&& g.raw(name)->Ok_0.0.len() / 4 == len
    &&& forall|i: int|
        0 <= i < len ==> #[trigger] v[i] == ({
            let b = g.raw(name)->Ok_0.0;
            b[4 * i] + 0x100 * b[4 * i + 1] + 0x1_0000 * b[4 * i + 2] + 0x100_0000 * b[4 * i + 3]
        })
}

/// The weights of layer `l` are the tensors that are named for it: `blk.`, the
/// number of the layer, and the part.
pub proof fn layer_weights_are_the_named_tensors(
    g: &GgufFile,
    c: &Config,
    l: usize,
    r: Result<LayerWeights, WeightError>,
)
    requires
        c.n_head > 0,
        call_ensures(LayerWeights::from_gguf, (g, c, l), r),
        r is Ok,
    ensures
        layer_is_named(*g, *c, l as int, r->Ok_0@),
        r->Ok_0@ == layer_parts(r->Ok_0),
{
    lemma_layer_names(l as int);
    lemma_layer(*g, *c, l as int);
}

/// The parts of the weights of a layer.
pub open spec fn layer_parts(w: LayerWeights) -> LayerView {
    LayerView {
        attn_norm: w.attn_norm@,
        attn_q: w.attn_q@,
        attn_k: w.attn_k@,
        attn_v: w.attn_v@,
        attn_output: w.attn_output@,
        ffn_norm: w.ffn_norm@,
        ffn_gate: w.ffn_gate@,
        ffn_up: w.ffn_up@,
        ffn_down: w.ffn_down@,
    }
}

/// The tensors of layer `l`, by name.
pub open spec fn layer_is_named(g: GgufFile, c: Config, l: int, w: LayerView) -> bool {
    let (e, f) = (c.n_embd as int, c.n_ff as int);
    let kv = c.n_head_kv * (c.n_embd as int / c.n_head as int);
    let blk = "blk."@ + decimal(l as nat);
    &&& is_vector(g, blk + ".attn_norm.weight"@, w.attn_norm, e)
    &&& is_tensor(g, blk + ".attn_q.weight"@, w.attn_q, e, e)
    &&& is_tensor(g, blk + ".attn_k.weight"@, w.attn_k, kv, e)
    &&& is_tensor(g, blk + ".attn_v.weight"@, w.attn_v, kv, e)
    &&& is_tensor(g, blk + ".attn_output.weight"@, w.attn_output, e, e)
    &&& is_vector(g, blk + ".ffn_norm.weight"@, w.ffn_norm, e)
    &&& is_tensor(g, blk + ".ffn_gate.weight"@, w.ffn_gate, f, e)
    &&& is_tensor(g, blk + ".ffn_up.weight"@, w.ffn_up, f, e)
    &&& is_tensor(g, blk + ".ffn_down.weight"@, w.ffn_down, e, f)
}

proof fn lemma_layer(g: GgufFile, c: Config, l: int)
    requires
        c.n_head > 0,
    ensures
        layer_of(g, c, l) is Ok ==> layer_is_named(g, c, l, layer_of(g, c, l)->Ok_0),
{
    lemma_layer_names(l);
}

proof fn lemma_layer_names(l: int)
    ensures
        layer_name(l, "attn_norm"@) == "blk."@ + decimal(l as nat) + ".attn_norm.weight"@,
        layer_name(l, "attn_q"@) == "blk."@ + decimal(l as nat) + ".attn_q.weight"@,
        layer_name(l, "attn_k"@) == "blk."@ + decimal(l as nat) + ".attn_k.weight"@,
        layer_name(l, "attn_v"@) == "blk."@ + decimal(l as nat) + ".attn_v.weight"@,
        layer_name(l, "attn_output"@) == "blk."@ + decimal(l as nat) + ".attn_output.weight"@,
        layer_name(l, "ffn_norm"@) == "blk."@ + decimal(l as nat) + ".ffn_norm.weight"@,
        layer_name(l, "ffn_gate"@) == "blk."@ + decimal(l as nat) + ".ffn_gate.weight"@,
        layer_name(l, "ffn_up"@) == "blk."@ + decimal(l as nat) + ".ffn_up.weight"@,
        layer_name(l, "ffn_down"@) == "blk."@ + decimal(l as nat) + ".ffn_down.weight"@,
{
    reveal_strlit(".");
    reveal_strlit(".weight");
    reveal_strlit("attn_norm");
    reveal_strlit(".attn_norm.weight");
    reveal_strlit("attn_q");
    reveal_strlit(".attn_q.weight");
    reveal_strlit("attn_k");
    reveal_strlit(".attn_k.weight");
    reveal_strlit("attn_v");
    reveal_strlit(".attn_v.weight");
    reveal_strlit("attn_output");
    reveal_strlit(".attn_output.weight");
    reveal_strlit("ffn_norm");
    reveal_strlit(".ffn_norm.weight");
    reveal_strlit("ffn_gate");
    reveal_strlit(".ffn_gate.weight");
    reveal_strlit("ffn_up");
    reveal_strlit(".ffn_up.weight");
    reveal_strlit("ffn_down");
    reveal_strlit(".ffn_down.weight");
    assert("."@ + "attn_norm"@ + ".weight"@ =~= ".attn_norm.weight"@);
    lemma_name(l, "attn_norm"@, ".attn_norm.weight"@);
    assert("."@ + "attn_q"@ + ".weight"@ =~= ".attn_q.weight"@);
    lemma_name(l, "attn_q"@, ".attn_q.weight"@);
    assert("."@ + "attn_k"@ + ".weight"@ =~= ".attn_k.weight"@);
    lemma_name(l, "attn_k"@, ".attn_k.weight"@);
    assert("."@ + "attn_v"@ + ".weight"@ =~= ".attn_v.weight"@);
    lemma_name(l, "attn_v"@, ".attn_v.weight"@);
    assert("."@ + "attn_output"@ + ".weight"@ =~= ".attn_output.weight"@);
    lemma_name(l, "attn_output"@, ".attn_output.weight"@);
    assert("."@ + "ffn_norm"@ + ".weight"@ =~= ".ffn_norm.weight"@);
    lemma_name(l, "ffn_norm"@, ".ffn_norm.weight"@);
    assert("."@ + "ffn_gate"@ + ".weight"@ =~= ".ffn_gate.weight"@);
    lemma_name(l, "ffn_gate"@, ".ffn_gate.weight"@);
    assert("."@ + "ffn_up"@ + ".weight"@ =~= ".ffn_up.weight"@);
    lemma_name(l, "ffn_up"@, ".ffn_up.weight"@);
    assert("."@ + "ffn_down"@ + ".weight"@ =~= ".ffn_down.weight"@);
    lemma_name(l, "ffn_down"@, ".ffn_down.weight"@);
}

proof fn lemma_name(l: int, part: Seq<char>, rest: Seq<char>)
    requires
        "."@ + part + ".weight"@ == rest,
    ensures
        layer_name(l, part) == "blk."@ + decimal(l as nat) + rest,
{
    assert(layer_name(l, part) =~= "blk."@ + decimal(l as nat) + ("."@ + part + ".weight"@));
}

/// The weights of a model are the tensors that are named for them, those of
/// layer `l` under its number.
pub proof fn weights_are_the_named_tensors(
    g: &GgufFile,
    c: &Config,
    r: Result<Weights, WeightError>,
)
    requires
        c.n_head > 0,
        call_ensures(Weights::from_gguf, (g, c), r),
        r is Ok,
    ensures
        weights_are_named(*g, *c, r->Ok_0@),
        r->Ok_0@.token_embd == r->Ok_0.token_embd@,
        r->Ok_0@.output_norm == r->Ok_0.output_norm@,
        r->Ok_0@.output == r->Ok_0.output@,
        r->Ok_0@.layers.len() == r->Ok_0.layers@.len(),
        forall|l: int|
            0 <= l < c.n_layer ==> #[trigger] r->Ok_0@.layers[l] == layer_parts(
                r->Ok_0.layers@[l],
            ),
{
    lemma_weights(*g, *c);
}

/// The tensors of a model, by name.
pub open spec fn weights_are_named(g: GgufFile, c: Config, w: WeightsView) -> bool {
    let (e, n) = (c.n_embd as int, c.vocab_size as int);
    &&& is_tensor(g, "token_embd.weight"@, w.token_embd, n, e)
    &&& is_vector(g, "output_norm.weight"@, w.output_norm, e)
    &&& is_tensor(g, "output.weight"@, w.output, n, e)
    &&& w.layers.len() == c.n_layer
    &&& forall|l: int|
        0 <= l < c.n_layer ==> layer_is_named(g, c, l, #[trigger] w.layers[l])
}

/// The weights of a model, wherever they could be bound, are the named tensors.
pub(crate) proof fn lemma_weights(g: GgufFile, c: Config)
    requires
        c.n_head > 0,
    ensures
        weights_of(g, c) is Ok ==> weights_are_named(g, c, weights_of(g, c)->Ok_0),
{
    lemma_layers(g, c, c.n_layer as int);
}

proof fn lemma_layers(g: GgufFile, c: Config, n: int)
    requires
        c.n_head > 0,
        0 <= n,
    ensures
        layers_of(g, c, n) is Ok ==> {
            let v = layers_of(g, c, n)->Ok_0;
            &&& v.len() == n
            &&& forall|l: int| 0 <= l < n ==> layer_is_named(g, c, l, #[trigger] v[l])
        },
    decreases n,
{
    if n > 0 {
        lemma_layers(g, c, n - 1);
        lemma_layer(g, c, n - 1);
    }
}

/// A model loads exactly where its hyperparameters are stated, the query heads
/// are a positive multiple of the kv heads, and its tokenizer is complete. It
/// then has those hyperparameters and that tokenizer, and nothing is cached.
pub proof fn loaded_is_what_the_file_holds<'a, T: Copy>(
    g: GgufFile<'a>,
    r: Result<Model<'a, T>, ModelError>,
)
    requires
        call_ensures(Model::<'a, T>::load, (g,), r),
    ensures
        r is Ok ==> {
            let m = r->Ok_0;
            &&& config_of(g) == Ok::<Config, ConfigError>(m.cfg)
            &&& tokenizer_of(g) == Ok::<TokenizerView, TokenizerError>(m.tokenizer@)
            &&& m.cfg.n_head_kv > 0 && m.cfg.n_head > 0
            &&& m.cfg.n_head as int % m.cfg.n_head_kv as int == 0
            &&& m.gguf == g
            &&& forall|l: int|
                0 <= l < m.cfg.n_layer ==> (#[trigger] m.kv.key_buf(l)).len() == 0
                    && m.kv.value_buf(l).len() == 0
        },
        config_of(g) matches Ok(c) && tokenizer_of(g) is Ok && c.n_head_kv > 0 && c.n_head > 0
            && c.n_head as int % c.n_head_kv as int == 0 ==> r is Ok,
{
}

} // verus!
