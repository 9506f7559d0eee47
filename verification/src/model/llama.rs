//! A loaded model: hyperparameters, tokenizer, weights and cache.

use vstd::prelude::*;

use crate::gguf::format::viewed;
use crate::gguf::GgufFile;
use crate::kv_cache::KvCache;
use crate::model::config::{config_of, Config, ConfigError};
use crate::model::weights::{weights_of, WeightError, Weights};
use crate::tokenizer::{
    bpe_laws, spm_laws, tokenizer_of, Tokenizer, TokenizerError, TokenizerView,
};

verus! {

/// Why a model could not be loaded.
#[derive(Clone, Copy, Debug, PartialEq, Eq, Structural)]
pub enum ModelError {
    Config(ConfigError),
    /// The head count is no positive multiple of the kv head count.
    Heads { n_head: usize, n_head_kv: usize },
    Tokenizer(TokenizerError),
}

/// The hyperparameters and the tokenizer of the model that a file holds.
pub open spec fn model_of(g: GgufFile) -> Result<(Config, TokenizerView), ModelError> {
    match config_of(g) {
        Err(e) => Err(ModelError::Config(e)),
        Ok(cfg) => if !cfg.heads_divide() {
            Err(ModelError::Heads { n_head: cfg.n_head, n_head_kv: cfg.n_head_kv })
        } else {
            match tokenizer_of(g) {
                Err(e) => Err(ModelError::Tokenizer(e)),
                Ok(t) => Ok((cfg, t)),
            }
        },
    }
}

/// A model over a file, with a cache of numbers of type `T`.
pub struct Model<'a, T> {
    pub cfg: Config,
    pub tokenizer: Tokenizer,
    pub gguf: GgufFile<'a>,
    pub kv: KvCache<T>,
}

impl<'a, T> Model<'a, T> {
    /// Whether the cache has the layers and the rows that the hyperparameters
    /// ask for.
    pub open spec fn wf(&self) -> bool {
        &&& self.cfg.heads_divide()
        &&& self.kv.wf()
        &&& self.kv.layers() == self.cfg.n_layer
        &&& self.kv.heads() == self.cfg.n_head_kv
        &&& self.kv.dim() == self.cfg.head_len()
    }

    /// Whether no row is cached.
    pub open spec fn is_fresh(&self) -> bool {
        forall|l: int|
            0 <= l < self.kv.layers() ==> #[trigger] self.kv.key_buf(l) == Seq::<T>::empty()
                && self.kv.value_buf(l) == Seq::<T>::empty()
    }
}

impl<'a, T: Copy> Model<'a, T> {
    /// Loads a model from its file: config, tokenizer, and a fresh cache.
    pub fn load(gguf: GgufFile<'a>) -> (r: Result<Model<'a, T>, ModelError>)
        ensures
            match r {
                Ok(m) => {
                    &&& model_of(gguf) == Ok::<(Config, TokenizerView), ModelError>(
                        (m.cfg, m.tokenizer@),
                    )
                    &&& m.gguf == gguf
                    &&& m.wf()
                    &&& m.is_fresh()
                    &&& m.kv.positions() == m.cfg.context_length
                },
                Err(e) => model_of(gguf) == Err::<(Config, TokenizerView), ModelError>(e),
            },
    {
        let cfg: Config = match Config::from_gguf(&gguf) {
            Ok(c) => c,
            Err(e) => return Err(ModelError::Config(e)),
        };
        if cfg.n_head == 0 || cfg.n_head_kv == 0 || cfg.n_head % cfg.n_head_kv != 0 {
            return Err(ModelError::Heads { n_head: cfg.n_head, n_head_kv: cfg.n_head_kv });
        }
        let tokenizer: Tokenizer = match Tokenizer::from_gguf(&gguf) {
            Ok(t) => t,
            Err(e) => return Err(ModelError::Tokenizer(e)),
        };
        let row: usize = cfg.kv_dim();
        assert(cfg.n_head_kv * cfg.head_len() == row);
        let kv: KvCache<T> = KvCache::new(
            cfg.n_layer,
            cfg.n_head_kv,
            cfg.head_dim(),
            cfg.context_length,
        );
        Ok(Model { cfg, tokenizer, gguf, kv })
    }

    /// The weights of the model, borrowed from its file.
    pub fn weights(&self) -> (r: Result<Weights<'_>, WeightError>)
        requires
            self.wf(),
        ensures
            viewed(r) == weights_of(self.gguf, self.cfg),
    {
        Weights::from_gguf(&self.gguf, &self.cfg)
    }

    /// Keeps a run to at most `n` positions.
    pub fn cap_context(&mut self, n: usize)
        requires
            old(self).wf(),
        ensures
            final(self).wf(),
            final(self).cfg == (Config {
                context_length: if n < old(self).cfg.context_length {
                    n
                } else {
                    old(self).cfg.context_length
                },
                ..old(self).cfg
            }),
            final(self).tokenizer == old(self).tokenizer,
            final(self).gguf == old(self).gguf,
            final(self).kv == old(self).kv,
    {
        if n < self.cfg.context_length {
            self.cfg.context_length = n;
        }
    }

    /// Empties the cache, to start a fresh sequence.
    pub fn reset(&mut self)
        requires
            old(self).wf(),
        ensures
            final(self).wf(),
            final(self).is_fresh(),
            final(self).cfg == old(self).cfg,
            final(self).tokenizer == old(self).tokenizer,
            final(self).gguf == old(self).gguf,
            final(self).kv.positions() == old(self).kv.positions(),
    {
        self.kv.clear();
    }
}

/// What the tokenizer of a model encodes, the model can be fed: every id has a
/// row in the embedding, if the unknown token has one.
pub proof fn encoded_text_can_be_fed(
    g: GgufFile,
    cfg: Config,
    t: TokenizerView,
    text: Seq<char>,
    i: int,
)
    requires
        model_of(g) == Ok::<(Config, TokenizerView), ModelError>((cfg, t)),
        t.tokens().len() <= usize::MAX,
        t.unk() < t.tokens().len(),
        0 <= i < t.encode(text).len(),
    ensures
        t.encode(text)[i] < cfg.vocab_size,
{
    assert(cfg.vocab_size == t.tokens().len());
    match t {
        TokenizerView::Bpe(b) => bpe_laws::encoded_ids_are_known(b, text, i),
        TokenizerView::Spm(s) => spm_laws::encoded_ids_are_known(s, text, i),
    }
}

} // verus!
