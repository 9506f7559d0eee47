//! Why a tokenizer could not be built.

use vstd::prelude::*;

verus! {

/// Why a tokenizer could not be built.
#[derive(Clone, Copy, Debug, PartialEq, Eq, Structural)]
pub enum TokenizerError {
    /// The file has no `tokenizer.ggml.tokens`.
    MissingTokens,
    /// The file has no `tokenizer.ggml.merges`.
    MissingMerges,
    /// The file has no `tokenizer.ggml.scores`.
    MissingScores,
    /// The file has no `tokenizer.ggml.token_type`.
    MissingTokenTypes,
    /// The file has no `tokenizer.ggml.unknown_token_id`.
    MissingUnknownId,
    /// The file has no `tokenizer.ggml.bos_token_id`.
    MissingBosId,
    /// The file has no `tokenizer.ggml.eos_token_id`.
    MissingEosId,
    /// The merge rule at this place has no space between two pieces.
    MalformedMerge(usize),
    /// The lists of tokens, scores and token types differ in length.
    LengthsDisagree { tokens: usize, scores: usize, types: usize },
}

} // verus!
