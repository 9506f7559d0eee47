//! Refusals: what is missing or wrong, and which of several things is said.

use vstd::prelude::*;

use crate::gguf::format::{dims_product, MetaView, TensorView};
use crate::gguf::reader::TensorInfo;
use crate::gguf::{GgmlType, GgufError, GgufFile, Vector};
use crate::laws::files::{lemma_all_formed, lemma_last_tensor, lemma_product, product};
use crate::model::config::{Config, ConfigError};
use crate::model::llama::{Model, ModelError};
use crate::model::weights::{
    layer_of, layers_of, LayerView, LayerWeights, Matrix, WeightError, Weights,
};
use crate::tokenizer::bpe::first_malformed;
use crate::tokenizer::{Tokenizer, TokenizerError};

verus! {

/// Of the hyperparameters that a file does not state, the first in this order is
/// the one that is said to be missing.
pub proof fn first_missing_hyperparameter_is_said(g: &GgufFile, r: Result<Config, ConfigError>)
    requires
        call_ensures(Config::from_gguf, (g,), r),
        g.value("general.architecture"@) == Some(MetaView::Str("llama"@)),
    ensures
        if g.strs_value("tokenizer.ggml.tokens"@) is None {
            r is Err && r->Err_0 == ConfigError::MissingTokens
        } else if g.u32_value("llama.block_count"@) is None {
            r is Err && r->Err_0 == ConfigError::MissingBlockCount
        } else if g.u32_value("llama.attention.head_count"@) is None {
            r is Err && r->Err_0 == ConfigError::MissingHeadCount
        } else if g.u32_value("llama.attention.head_count_kv"@) is None {
            r is Err && r->Err_0 == ConfigError::MissingHeadCountKv
        } else if g.u32_value("llama.embedding_length"@) is None {
            r is Err && r->Err_0 == ConfigError::MissingEmbeddingLength
        } else if g.u32_value("llama.feed_forward_length"@) is None {
            r is Err && r->Err_0 == ConfigError::MissingFeedForwardLength
        } else if g.u32_value("llama.context_length"@) is None {
            r is Err && r->Err_0 == ConfigError::MissingContextLength
        } else if g.u32_value("llama.rope.dimension_count"@) is None {
            r is Err && r->Err_0 == ConfigError::MissingRopeDimensionCount
        } else {
            r is Ok
        },
{
}

/// Of what a byte-level BPE tokenizer needs, the first in this order that a file
/// does not have is the one that is said to be missing; and of its rules the first
/// without a space.
pub proof fn first_missing_bpe_part_is_said(g: &GgufFile, r: Result<Tokenizer, TokenizerError>)
    requires
        call_ensures(Tokenizer::from_gguf, (g,), r),
        g.value("tokenizer.ggml.model"@) != Some(MetaView::Str("llama"@)),
    ensures
        ({
            let tokens = g.strs_value("tokenizer.ggml.tokens"@);
            let rules = g.strs_value("tokenizer.ggml.merges"@);
            let unk = g.u32_value("tokenizer.ggml.unknown_token_id"@);
            let bos = g.u32_value("tokenizer.ggml.bos_token_id"@);
            let eos = g.u32_value("tokenizer.ggml.eos_token_id"@);
            if tokens is None {
                r is Err && r->Err_0 == TokenizerError::MissingTokens
            } else if rules is None {
                r is Err && r->Err_0 == TokenizerError::MissingMerges
            } else if unk is None {
                r is Err && r->Err_0 == TokenizerError::MissingUnknownId
            } else if bos is None {
                r is Err && r->Err_0 == TokenizerError::MissingBosId
            } else if eos is None {
                r is Err && r->Err_0 == TokenizerError::MissingEosId
            } else {
                r is Err ==> exists|i: int|
                    0 <= i < rules->0.len() && !(#[trigger] rules->0[i]).contains(' ') && (
                    forall|j: int| 0 <= j < i ==> (#[trigger] rules->0[j]).contains(' '))
                        && r->Err_0 == TokenizerError::MalformedMerge(i as usize)
            }
        }),
{
    if let Some(rules) = g.strs_value("tokenizer.ggml.merges"@) {
        lemma_first_malformed(rules);
    }
}

proof fn lemma_first_malformed(rules: Seq<Seq<char>>)
    ensures
        first_malformed(rules) matches Some(i) ==> 0 <= i < rules.len() && !rules[i].contains(' ')
            && forall|j: int| 0 <= j < i ==> (#[trigger] rules[j]).contains(' '),
    decreases rules.len(),
{
    if rules.len() > 0 {
        let init = rules.drop_last();
        lemma_first_malformed(init);
        assert(forall|j: int| 0 <= j < init.len() ==> rules[j] == #[trigger] init[j]);
        if let Some(i) = first_malformed(rules) {
            if i < init.len() {
                assert(first_malformed(init) == Some(i));
                assert forall|j: int| 0 <= j < i implies (#[trigger] rules[j]).contains(' ') by {
                    assert(init[j].contains(' '));
                }
            } else {
                lemma_all_formed(init);
                assert forall|j: int| 0 <= j < i implies (#[trigger] rules[j]).contains(' ') by {
                    assert(init[j].contains(' '));
                }
            }
        }
    }
}

/// Of what a SentencePiece tokenizer needs, the first in this order that a file
/// does not have is the one that is said to be missing; and lists of different
/// lengths are said with their lengths.
pub proof fn first_missing_spm_part_is_said(g: &GgufFile, r: Result<Tokenizer, TokenizerError>)
    requires
        call_ensures(Tokenizer::from_gguf, (g,), r),
        g.value("tokenizer.ggml.model"@) == Some(MetaView::Str("llama"@)),
    ensures
        ({
            let tokens = g.strs_value("tokenizer.ggml.tokens"@);
            let scores = g.f32s_value("tokenizer.ggml.scores"@);
            let types = g.i32s_value("tokenizer.ggml.token_type"@);
            let bos = g.u32_value("tokenizer.ggml.bos_token_id"@);
            let eos = g.u32_value("tokenizer.ggml.eos_token_id"@);
            if tokens is None {
                r is Err && r->Err_0 == TokenizerError::MissingTokens
            } else if scores is None {
                r is Err && r->Err_0 == TokenizerError::MissingScores
            } else if types is None {
                r is Err && r->Err_0 == TokenizerError::MissingTokenTypes
            } else if bos is None {
                r is Err && r->Err_0 == TokenizerError::MissingBosId
            } else if eos is None {
                r is Err && r->Err_0 == TokenizerError::MissingEosId
            } else {
                r is Err ==> !(tokens->0.len() == scores->0.len() == types->0.len()) && r->Err_0
                    == (TokenizerError::LengthsDisagree {
                    tokens: tokens->0.len() as usize,
                    scores: scores->0.len() as usize,
                    types: types->0.len() as usize,
                })
            }
        }),
{
}

/// The number of elements of a tensor is the product of its dims. It is not known
/// only where the product of the first few of them is too large already.
pub proof fn elements_are_the_product(t: &TensorInfo, n: Option<u64>, k: usize)
    requires
        call_ensures(TensorInfo::checked_elem_count, (t,), n),
        call_ensures(TensorInfo::elem_count, (t,), k),
    ensures
        n is Some ==> n->0 == product(t.dims@),
        n is None ==> exists|i: int|
            0 <= i <= t.dims@.len() && #[trigger] product(t.dims@.take(i)) > u64::MAX,
        n is Some && n->0 <= usize::MAX ==> k == product(t.dims@),
{
    lemma_product(t.dims@);
    if n is None {
        lemma_too_large(t.dims@);
    }
}

proof fn lemma_too_large(dims: Seq<u64>)
    requires
        dims_product(dims) is None,
    ensures
        exists|i: int| 0 <= i <= dims.len() && #[trigger] product(dims.take(i)) > u64::MAX,
    decreases dims.len(),
{
    let init = dims.drop_last();
    if dims_product(init) is None {
        lemma_too_large(init);
        let i = choose|i: int| 0 <= i <= init.len() && #[trigger] product(init.take(i)) > u64::MAX;
        assert(init.take(i) =~= dims.take(i));
        assert(product(dims.take(i)) > u64::MAX);
    } else {
        lemma_product(init);
        assert(dims.take(dims.len() as int) =~= dims);
        assert(product(dims.take(dims.len() as int)) > u64::MAX);
    }
}

/// Why the bytes of a tensor are not to be had: there is none of that name, its
/// elements are too many to count or fill no whole blocks, or its bytes would end
/// behind the end of the file. In any other case they are.
pub proof fn unreadable_tensors_are_refused(
    g: &GgufFile,
    name: &str,
    r: Result<(&[u8], GgmlType), GgufError>,
)
    requires
        call_ensures(GgufFile::tensor_raw, (g, name), r),
        g.bytes().len() <= u64::MAX,
    ensures
        (forall|i: int|
            0 <= i < g.content().tensors.len() ==> (#[trigger] g.content().tensors[i]).name
                != name@) ==> r is Err && r->Err_0 == GgufError::NoSuchTensor,
        forall|i: int|
            #![trigger g.content().tensors[i]]
            0 <= i < g.content().tensors.len() && g.content().tensors[i].name == name@ && (forall|
                j: int,
            |
                i < j < g.content().tensors.len() ==> (#[trigger] g.content().tensors[j]).name
                    != name@) ==> is_answered(*g, g.content().tensors[i], r),
{
    lemma_last_tensor(g.content().tensors, name@);
    assert forall|i: int|
        #![trigger g.content().tensors[i]]
        0 <= i < g.content().tensors.len() && g.content().tensors[i].name == name@ && (forall|
            j: int,
        |
            i < j < g.content().tensors.len() ==> (#[trigger] g.content().tensors[j]).name
                != name@) implies is_answered(*g, g.content().tensors[i], r) by {
        let t = g.content().tensors[i];
        let k = crate::gguf::format::find_tensor(g.content().tensors, name@)->0;
        assert(k == i) by {
            if k < i {
                assert(g.content().tensors[i].name != name@);
            } else if i < k {
                assert(g.content().tensors[k].name != name@);
            }
        }
        lemma_product(t.dims);
    }
}

/// Whether a result is the answer to a request for the bytes of a tensor.
pub open spec fn is_answered(
    g: GgufFile,
    t: TensorView,
    r: Result<(&[u8], GgmlType), GgufError>,
) -> bool {
    let n = product(t.dims);
    let end = g.content().data_start + t.offset + n / t.dtype.elems() * t.dtype.bytes();
    if dims_product(t.dims) is None {
        r is Err && r->Err_0 == GgufError::TensorRangeOverflow
    } else if n % t.dtype.elems() != 0 {
        r is Err && r->Err_0 == GgufError::PartialBlock
    } else if end > u64::MAX {
        r is Err && r->Err_0 == GgufError::TensorRangeOverflow
    } else if end > g.bytes().len() {
        r is Err && r->Err_0 == GgufError::TensorPastEnd
    } else {
        r is Ok
    }
}

/// A tensor is read as single-precision numbers exactly where it is of that type
/// and its bytes can be had; number `i` is then the one whose four bytes stand at
/// `4 * i`.
pub proof fn singles_are_read_from_their_bytes(
    g: &GgufFile,
    name: &str,
    raw: Result<(&[u8], GgmlType), GgufError>,
    r: Result<Vector<'_>, GgufError>,
)
    requires
        call_ensures(GgufFile::tensor_raw, (g, name), raw),
        call_ensures(GgufFile::tensor_f32, (g, name), r),
    ensures
        raw is Ok && raw->Ok_0.1 != GgmlType::F32 ==> r is Err && r->Err_0 == GgufError::NotF32(
            raw->Ok_0.1,
        ),
        raw is Ok && raw->Ok_0.1 == GgmlType::F32 ==> {
            let b = raw->Ok_0.0@;
            &&& r is Ok
            &&& r->Ok_0@.len() == b.len() / 4
            &&& forall|i: int|
                0 <= i < r->Ok_0@.len() ==> #[trigger] r->Ok_0@[i] == b[4 * i] + 0x100 * b[4 * i
                    + 1] + 0x1_0000 * b[4 * i + 2] + 0x100_0000 * b[4 * i + 3]
        },
        raw matches Err(e) ==> r is Err && (r->Err_0 == e || r->Err_0 is NotF32),
        raw matches Err(GgufError::NoSuchTensor) ==> r is Err && r->Err_0
            == GgufError::NoSuchTensor,
{
}

/// A vector over bytes is their numbers, four bytes each, and gives them back.
pub proof fn vectors_are_their_numbers<'a>(
    b: &'a [u8],
    v: Vector<'a>,
    n: usize,
    i: usize,
    x: u32,
)
    requires
        call_ensures(Vector::<'a>::over, (b,), v),
        call_ensures(Vector::<'a>::len, (&v,), n),
        i < n,
        call_ensures(Vector::<'a>::get, (&v, i), x),
    ensures
        n == b@.len() / 4,
        x == b@[4 * i] + 0x100 * b@[4 * i + 1] + 0x1_0000 * b@[4 * i + 2] + 0x100_0000 * b@[4 * i
            + 3],
{
}

/// The weights of a model bind exactly where each of them does. The first that
/// does not is the error, in the order of the embedding, the output norm, the
/// output matrix, and the layers.
pub proof fn first_unbound_weight_is_said(
    g: &GgufFile,
    c: &Config,
    embd: Result<Matrix, WeightError>,
    norm: Result<Vector, WeightError>,
    output: Result<Matrix, WeightError>,
    r: Result<Weights, WeightError>,
)
    requires
        call_ensures(Matrix::bind, (g, "token_embd.weight", c.vocab_size, c.n_embd), embd),
        call_ensures(Vector::bind, (g, "output_norm.weight", c.n_embd), norm),
        call_ensures(Matrix::bind, (g, "output.weight", c.vocab_size, c.n_embd), output),
        call_ensures(Weights::from_gguf, (g, c), r),
    ensures
        embd matches Err(e) ==> r is Err && r->Err_0 == e,
        embd is Ok && norm is Err ==> r is Err && r->Err_0 == norm->Err_0,
        embd is Ok && norm is Ok && output is Err ==> r is Err && r->Err_0 == output->Err_0,
        c.n_layer == 0 && embd is Ok && norm is Ok && output is Ok ==> r is Ok,
{
}

/// The weights of a model, all but one layer of which bind, do not bind.
pub proof fn layers_bind_one_by_one(
    g: &GgufFile,
    c: &Config,
    l: usize,
    layer: Result<LayerWeights, WeightError>,
    r: Result<Weights, WeightError>,
)
    requires
        c.n_head > 0,
        l < c.n_layer,
        call_ensures(LayerWeights::from_gguf, (g, c, l), layer),
        call_ensures(Weights::from_gguf, (g, c), r),
    ensures
        layer is Err ==> r is Err,
        r is Ok && layer is Ok ==> r->Ok_0@.layers[l as int] == layer->Ok_0@,
{
    lemma_layer_result(*g, *c, l as int, c.n_layer as int);
}

proof fn lemma_layer_result(g: GgufFile, c: Config, l: int, n: int)
    requires
        0 <= l < n,
    ensures
        layers_of(g, c, n) is Ok ==> layers_of(g, c, n)->Ok_0.len() == n,
        layers_of(g, c, n) is Ok ==> layer_of(g, c, l) == Ok::<LayerView, WeightError>(
            layers_of(g, c, n)->Ok_0[l],
        ),
    decreases n,
{
    if l < n - 1 {
        lemma_layer_result(g, c, l, n - 1);
    } else if n > 1 {
        lemma_layer_result(g, c, 0, n - 1);
    }
}

/// What is wrong with a model is said in this order: its hyperparameters, the
/// number of its heads, its tokenizer.
pub proof fn first_fault_of_a_model_is_said<'a, T: Copy>(
    g: GgufFile<'a>,
    c: Result<Config, ConfigError>,
    t: Result<Tokenizer, TokenizerError>,
    r: Result<Model<'a, T>, ModelError>,
)
    requires
        call_ensures(Config::from_gguf, (&g,), c),
        call_ensures(Tokenizer::from_gguf, (&g,), t),
        call_ensures(Model::<'a, T>::load, (g,), r),
    ensures
        c matches Err(e) ==> r is Err && r->Err_0 == ModelError::Config(e),
        c matches Ok(x) ==> if x.n_head == 0 || x.n_head_kv == 0 || x.n_head as int
            % x.n_head_kv as int != 0 {
            r is Err && r->Err_0 == (ModelError::Heads {
                n_head: x.n_head,
                n_head_kv: x.n_head_kv,
            })
        } else {
            &&& t matches Err(e) ==> r is Err && r->Err_0 == ModelError::Tokenizer(e)
            &&& t is Ok ==> r is Ok && r->Ok_0.cfg == x && r->Ok_0.tokenizer@ == t->Ok_0@
        },
{
}

} // verus!
