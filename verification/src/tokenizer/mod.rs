//! Tokenizers.
//!
//! Two kinds are read from a model file, by what `tokenizer.ggml.model` says:
//!   - `llama`: SentencePiece pieces, merged by score;
//!   - anything else, or nothing: byte-level BPE, merged by rank.

pub mod alphabet;
pub mod bpe;
pub mod bpe_laws;
pub mod bytes;
pub mod candidates;
pub mod error;
pub mod merge;
pub mod queue;
pub mod spm;
pub mod spm_laws;
pub mod symbols;
pub mod vocab;
pub mod words;

use vstd::prelude::*;

pub use crate::tokenizer::bpe::Bpe;
pub use crate::tokenizer::error::TokenizerError;
pub use crate::tokenizer::spm::Spm;

use crate::gguf::format::viewed;
use crate::gguf::GgufFile;
use crate::text::same_text;
use crate::tokenizer::bpe::{bpe_of, BpeView};
use crate::tokenizer::spm::{spm_of, SpmView};

verus! {

/// A loaded tokenizer, one of the two kinds.
pub enum Tokenizer {
    Bpe(Bpe),
    Spm(Spm),
}

/// What a tokenizer of either kind consists of.
#[verifier::ext_equal]
pub enum TokenizerView {
    Bpe(BpeView),
    Spm(SpmView),
}

impl View for Tokenizer {
    type V = TokenizerView;

    open spec fn view(&self) -> TokenizerView {
        match self {
            Tokenizer::Bpe(t) => TokenizerView::Bpe(t@),
            Tokenizer::Spm(t) => TokenizerView::Spm(t@),
        }
    }
}

impl TokenizerView {
    pub open spec fn encode(self, text: Seq<char>) -> Seq<u32> {
        match self {
            TokenizerView::Bpe(t) => t.encode(text),
            TokenizerView::Spm(t) => t.encode(text),
        }
    }

    pub open spec fn decode(self, ids: Seq<u32>) -> Seq<char> {
        match self {
            TokenizerView::Bpe(t) => t.decode(ids),
            TokenizerView::Spm(t) => t.decode(ids),
        }
    }

    pub open spec fn tokens(self) -> Seq<Seq<char>> {
        match self {
            TokenizerView::Bpe(t) => t.tokens,
            TokenizerView::Spm(t) => t.tokens,
        }
    }

    pub open spec fn bos(self) -> u32 {
        match self {
            TokenizerView::Bpe(t) => t.bos,
            TokenizerView::Spm(t) => t.bos,
        }
    }

    pub open spec fn eos(self) -> u32 {
        match self {
            TokenizerView::Bpe(t) => t.eos,
            TokenizerView::Spm(t) => t.eos,
        }
    }

    pub open spec fn unk(self) -> u32 {
        match self {
            TokenizerView::Bpe(t) => t.unk,
            TokenizerView::Spm(t) => t.unk,
        }
    }

    pub open spec fn add_bos(self) -> bool {
        match self {
            TokenizerView::Bpe(_) => false,
            TokenizerView::Spm(t) => t.add_bos,
        }
    }
}

/// The tokenizer that the metadata of a file describes: its kind is what the
/// declared tokenizer model says.
pub open spec fn tokenizer_of(g: GgufFile) -> Result<TokenizerView, TokenizerError> {
    if g.str_value("tokenizer.ggml.model"@) == Some("llama"@) {
        match spm_of(g) {
            Ok(t) => Ok(TokenizerView::Spm(t)),
            Err(e) => Err(e),
        }
    } else {
        match bpe_of(g) {
            Ok(t) => Ok(TokenizerView::Bpe(t)),
            Err(e) => Err(e),
        }
    }
}

impl Tokenizer {
    /// Builds the tokenizer of a file, of the kind that the file declares.
    pub fn from_gguf(g: &GgufFile) -> (r: Result<Tokenizer, TokenizerError>)
        ensures
            viewed(r) == tokenizer_of(*g),
    {
        let llama: bool = match g.get_str("tokenizer.ggml.model") {
            Some(model) => same_text(model, "llama"),
            None => false,
        };
        if llama {
            match Spm::from_gguf(g) {
                Ok(t) => Ok(Tokenizer::Spm(t)),
                Err(e) => Err(e),
            }
        } else {
            match Bpe::from_gguf(g) {
                Ok(t) => Ok(Tokenizer::Bpe(t)),
                Err(e) => Err(e),
            }
        }
    }

    /// Encode text to token ids, without BOS or EOS.
    pub fn encode(&self, text: &str) -> (ids: Vec<u32>)
        ensures
            ids@ == self@.encode(text@),
    {
        match self {
            Tokenizer::Bpe(t) => t.encode(text),
            Tokenizer::Spm(t) => t.encode(text),
        }
    }

    /// Decode token ids back to a text.
    pub fn decode(&self, ids: &[u32]) -> (text: String)
        ensures
            text@ == self@.decode(ids@),
    {
        match self {
            Tokenizer::Bpe(t) => t.decode(ids),
            Tokenizer::Spm(t) => t.decode(ids),
        }
    }

    pub fn vocab_size(&self) -> (n: usize)
        ensures
            n == self@.tokens().len(),
    {
        match self {
            Tokenizer::Bpe(t) => t.vocab_size(),
            Tokenizer::Spm(t) => t.vocab_size(),
        }
    }

    pub fn bos(&self) -> (id: u32)
        ensures
            id == self@.bos(),
    {
        match self {
            Tokenizer::Bpe(t) => t.bos(),
            Tokenizer::Spm(t) => t.bos(),
        }
    }

    pub fn eos(&self) -> (id: u32)
        ensures
            id == self@.eos(),
    {
        match self {
            Tokenizer::Bpe(t) => t.eos(),
            Tokenizer::Spm(t) => t.eos(),
        }
    }

    /// Whether a BOS token should be prepended to an encoded prompt.
    /// SentencePiece models say so; byte-level BPE never adds one.
    pub fn add_bos(&self) -> (b: bool)
        ensures
            b == self@.add_bos(),
    {
        match self {
            Tokenizer::Bpe(_) => false,
            Tokenizer::Spm(t) => t.add_bos(),
        }
    }
}

} // verus!
