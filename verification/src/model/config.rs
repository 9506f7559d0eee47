//! Model hyperparameters, read from the `llama.*` metadata of a file.

use vstd::prelude::*;

use crate::gguf::GgufFile;
use crate::kv_cache::head_of;
use crate::text::same_text;

verus! {

/// The single-precision bit pattern of 1e-5.
pub const DEFAULT_RMS_EPS: u32 = 0x3727_C5AC;

/// The single-precision bit pattern of 10000.
pub const DEFAULT_FREQ_BASE: u32 = 0x461C_4000;

/// The hyperparameters of a model. `rms_eps` and `rope_freq_base` are
/// single-precision bit patterns.
#[derive(Clone, Copy, Debug, PartialEq, Eq, Structural)]
pub struct Config {
    pub n_layer: usize,
    pub n_head: usize,
    pub n_head_kv: usize,
    pub n_embd: usize,
    pub n_ff: usize,
    pub context_length: usize,
    pub vocab_size: usize,
    pub rms_eps: u32,
    pub rope_dim: usize,
    pub rope_freq_base: u32,
}

/// Why the hyperparameters of a file could not be read.
#[derive(Clone, Copy, Debug, PartialEq, Eq, Structural)]
pub enum ConfigError {
    /// `general.architecture` is not `llama`.
    UnsupportedArchitecture,
    /// The file has no `tokenizer.ggml.tokens`, which give the vocabulary size.
    MissingTokens,
    /// The file has no `llama.block_count`.
    MissingBlockCount,
    /// The file has no `llama.attention.head_count`.
    MissingHeadCount,
    /// The file has no `llama.attention.head_count_kv`.
    MissingHeadCountKv,
    /// The file has no `llama.embedding_length`.
    MissingEmbeddingLength,
    /// The file has no `llama.feed_forward_length`.
    MissingFeedForwardLength,
    /// The file has no `llama.context_length`.
    MissingContextLength,
    /// The file has no `llama.rope.dimension_count`.
    MissingRopeDimensionCount,
}

/// The number that a key must have.
pub open spec fn needed(g: GgufFile, key: Seq<char>, e: ConfigError) -> Result<usize, ConfigError> {
    match g.u32_value(key) {
        Some(x) => Ok(x as usize),
        None => Err(e),
    }
}

/// The hyperparameters that the metadata of a file states. The keys are looked
/// up in this order, and the first that is missing is the error.
pub open spec fn config_of(g: GgufFile) -> Result<Config, ConfigError> {
    if g.str_value("general.architecture"@) != Some("llama"@) {
        Err(ConfigError::UnsupportedArchitecture)
    } else if g.strs_value("tokenizer.ggml.tokens"@) is None {
        Err(ConfigError::MissingTokens)
    } else {
        match (
            needed(g, "llama.block_count"@, ConfigError::MissingBlockCount),
            needed(g, "llama.attention.head_count"@, ConfigError::MissingHeadCount),
            needed(g, "llama.attention.head_count_kv"@, ConfigError::MissingHeadCountKv),
            needed(g, "llama.embedding_length"@, ConfigError::MissingEmbeddingLength),
            needed(g, "llama.feed_forward_length"@, ConfigError::MissingFeedForwardLength),
            needed(g, "llama.context_length"@, ConfigError::MissingContextLength),
            needed(g, "llama.rope.dimension_count"@, ConfigError::MissingRopeDimensionCount),
        ) {
            (Err(e), _, _, _, _, _, _) => Err(e),
            (_, Err(e), _, _, _, _, _) => Err(e),
            (_, _, Err(e), _, _, _, _) => Err(e),
            (_, _, _, Err(e), _, _, _) => Err(e),
            (_, _, _, _, Err(e), _, _) => Err(e),
            (_, _, _, _, _, Err(e), _) => Err(e),
            (_, _, _, _, _, _, Err(e)) => Err(e),
            (
                Ok(n_layer),
                Ok(n_head),
                Ok(n_head_kv),
                Ok(n_embd),
                Ok(n_ff),
                Ok(context_length),
                Ok(rope_dim),
            ) => Ok(
                Config {
                    n_layer,
                    n_head,
                    n_head_kv,
                    n_embd,
                    n_ff,
                    context_length,
                    vocab_size: g.strs_value("tokenizer.ggml.tokens"@)->0.len() as usize,
                    rms_eps: match g.f32_value("llama.attention.layer_norm_rms_epsilon"@) {
                        Some(x) => x,
                        None => DEFAULT_RMS_EPS,
                    },
                    rope_dim,
                    rope_freq_base: match g.f32_value("llama.rope.freq_base"@) {
                        Some(x) => x,
                        None => DEFAULT_FREQ_BASE,
                    },
                },
            ),
        }
    }
}

fn need(g: &GgufFile, key: &str, e: ConfigError) -> (r: Result<usize, ConfigError>)
    ensures
        r == needed(*g, key@, e),
{
    match g.get_u32(key) {
        Some(x) => Ok(x as usize),
        None => Err(e),
    }
}

impl Config {
    /// Whether the query heads share the kv heads evenly: the head count is a
    /// positive multiple of the kv head count.
    pub open spec fn heads_divide(self) -> bool {
        &&& self.n_head > 0
        &&& self.n_head_kv > 0
        &&& self.n_head as int % self.n_head_kv as int == 0
    }

    /// Numbers per head.
    pub open spec fn head_len(self) -> int {
        self.n_embd as int / self.n_head as int
    }

    /// Numbers per row of the cache.
    pub open spec fn kv_len(self) -> int {
        self.n_head_kv * self.head_len()
    }

    /// Query heads per kv head.
    pub open spec fn group_len(self) -> int {
        self.n_head as int / self.n_head_kv as int
    }

    /// The kv head that query head `h` reads.
    pub open spec fn shared_head(self, h: int) -> int {
        h / self.group_len()
    }

    pub fn head_dim(&self) -> (n: usize)
        requires
            self.n_head > 0,
        ensures
            n == self.head_len(),
    {
        self.n_embd / self.n_head
    }

    /// Numbers per row of the key/value cache.
    pub fn kv_dim(&self) -> (n: usize)
        requires
            self.heads_divide(),
        ensures
            n == self.kv_len(),
            n <= self.n_embd,
    {
        proof {
            lemma_kv_fits(*self);
        }
        self.n_head_kv * self.head_dim()
    }

    /// The number of query heads that share a kv head.
    pub fn group(&self) -> (n: usize)
        requires
            self.heads_divide(),
        ensures
            n == self.group_len(),
            n > 0,
    {
        proof {
            lemma_groups(*self);
        }
        self.n_head / self.n_head_kv
    }

    /// The kv head that query head `h` reads.
    pub fn kv_head(&self, h: usize) -> (n: usize)
        requires
            self.heads_divide(),
            h < self.n_head,
        ensures
            n == self.shared_head(h as int),
            n < self.n_head_kv,
    {
        proof {
            lemma_groups(*self);
            query_heads_share_evenly(*self, h as int);
        }
        h / self.group()
    }

    /// Where the numbers of query head `h` lie in a row of all query heads.
    pub fn head_span(&self, h: usize) -> (r: (usize, usize))
        requires
            self.n_head > 0,
            h < self.n_head,
        ensures
            r.0 == h * self.head_len(),
            r.1 == r.0 + self.head_len(),
            r.1 <= self.n_embd,
    {
        let d: usize = self.head_dim();
        proof {
            let (n, e) = (self.n_head as int, self.n_embd as int);
            assert(0 <= h * d && h * d + d <= e) by (nonlinear_arith)
                requires
                    0 <= h < n,
                    d == e / n,
                    n > 0,
                    e >= 0,
            {
                assert(n * (e / n) + e % n == e);
                assert(e % n >= 0);
                assert(h * d + d <= n * d);
            }
        }
        (h * d, h * d + d)
    }

    /// Read all hyperparameters from a loaded file.
    pub fn from_gguf(g: &GgufFile) -> (r: Result<Config, ConfigError>)
        ensures
            r == config_of(*g),
    {
        let llama: bool = match g.get_str("general.architecture") {
            Some(arch) => same_text(arch, "llama"),
            None => false,
        };
        if !llama {
            return Err(ConfigError::UnsupportedArchitecture);
        }
        let vocab_size: usize = match g.get_arr_str("tokenizer.ggml.tokens") {
            Some(tokens) => tokens.len(),
            None => return Err(ConfigError::MissingTokens),
        };
        let n_layer: usize = need(g, "llama.block_count", ConfigError::MissingBlockCount)?;
        let n_head: usize = need(g, "llama.attention.head_count", ConfigError::MissingHeadCount)?;
        let n_head_kv: usize = need(
            g,
            "llama.attention.head_count_kv",
            ConfigError::MissingHeadCountKv,
        )?;
        let n_embd: usize = need(
            g,
            "llama.embedding_length",
            ConfigError::MissingEmbeddingLength,
        )?;
        let n_ff: usize = need(
            g,
            "llama.feed_forward_length",
            ConfigError::MissingFeedForwardLength,
        )?;
        let context_length: usize = need(
            g,
            "llama.context_length",
            ConfigError::MissingContextLength,
        )?;
        let rope_dim: usize = need(
            g,
            "llama.rope.dimension_count",
            ConfigError::MissingRopeDimensionCount,
        )?;
        let rms_eps: u32 = match g.get_f32("llama.attention.layer_norm_rms_epsilon") {
            Some(x) => x,
            None => DEFAULT_RMS_EPS,
        };
        let rope_freq_base: u32 = match g.get_f32("llama.rope.freq_base") {
            Some(x) => x,
            None => DEFAULT_FREQ_BASE,
        };
        Ok(
            Config {
                n_layer,
                n_head,
                n_head_kv,
                n_embd,
                n_ff,
                context_length,
                vocab_size,
                rms_eps,
                rope_dim,
                rope_freq_base,
            },
        )
    }
}

proof fn lemma_groups(c: Config)
    requires
        c.heads_divide(),
    ensures
        c.group_len() > 0,
        c.group_len() * c.n_head_kv == c.n_head,
{
    let (n, k) = (c.n_head as int, c.n_head_kv as int);
    assert(n == k * (n / k) + n % k) by (nonlinear_arith)
        requires
            k > 0,
    ;
    assert(n / k > 0) by (nonlinear_arith)
        requires
            n == k * (n / k),
            n > 0,
            k > 0,
    ;
    assert((n / k) * k == k * (n / k)) by (nonlinear_arith);
}

pub(crate) proof fn lemma_kv_fits(c: Config)
    requires
        c.heads_divide(),
    ensures
        0 <= c.kv_len() <= c.n_head * c.head_len() <= c.n_embd,
{
    lemma_groups(c);
    let (n, k, g, e) = (
        c.n_head as int,
        c.n_head_kv as int,
        c.group_len(),
        c.n_embd as int,
    );
    assert(0 <= k * (e / n) <= n * (e / n) <= e) by (nonlinear_arith)
        requires
            g > 0,
            g * k == n,
            n > 0,
            k > 0,
            e >= 0,
    {
        assert(k <= n);
        assert(e / n >= 0);
        assert(n * (e / n) + e % n == e);
        assert(e % n >= 0);
    }
}

/// Grouped-query attention: each kv head is read by as many consecutive query
/// heads as fall to it, and every query head reads a kv head that there is.
pub proof fn query_heads_share_evenly(c: Config, h: int)
    requires
        c.heads_divide(),
        0 <= h < c.n_head,
    ensures
        0 <= c.shared_head(h) < c.n_head_kv,
        c.shared_head(h) * c.group_len() <= h < (c.shared_head(h) + 1) * c.group_len(),
{
    lemma_groups(c);
    let (g, k) = (c.group_len(), c.n_head_kv as int);
    assert(0 <= h / g < k && (h / g) * g <= h < (h / g + 1) * g) by (nonlinear_arith)
        requires
            g > 0,
            0 <= h < g * k,
    {
        assert(g * (h / g) + h % g == h);
        assert(0 <= h % g < g);
    }
}

/// With as many kv heads as query heads, every query head has its own.
pub proof fn equal_head_counts_share_nothing(c: Config, h: int)
    requires
        c.heads_divide(),
        c.n_head == c.n_head_kv,
        0 <= h < c.n_head,
    ensures
        c.shared_head(h) == h,
{
    assert(c.group_len() == 1) by (nonlinear_arith)
        requires
            c.group_len() == c.n_head as int / c.n_head as int,
            c.n_head > 0,
    ;
}

/// A cache row in which every kv head is repeated for the query heads that
/// share it.
pub open spec fn replicated<T>(c: Config, row: Seq<T>) -> Seq<T> {
    Seq::new(
        (c.n_head * c.head_len()) as nat,
        |j: int| row[c.shared_head(j / c.head_len()) * c.head_len() + j % c.head_len()],
    )
}

/// Sharing a kv head is the same as giving each query head a copy of it: what
/// a query head reads of a row is what it would read, as a head of its own, of
/// the row with every kv head repeated.
pub proof fn shared_heads_act_as_copies<T>(c: Config, row: Seq<T>, h: int)
    requires
        c.heads_divide(),
        row.len() == c.kv_len(),
        0 <= h < c.n_head,
    ensures
        head_of(row, c.kv_len(), c.head_len(), 0, c.shared_head(h)) == head_of(
            replicated(c, row),
            c.n_head * c.head_len(),
            c.head_len(),
            0,
            h,
        ),
{
    lemma_kv_fits(c);
    query_heads_share_evenly(c, h);
    let (d, n, k, s) = (c.head_len(), c.n_head as int, c.n_head_kv as int, c.shared_head(h));
    let (a, b) = (
        head_of(row, c.kv_len(), d, 0, s),
        head_of(replicated(c, row), n * d, d, 0, h),
    );
    assert(0 <= s * d && s * d + d <= k * d && 0 <= h * d && h * d + d <= n * d) by (
        nonlinear_arith)
        requires
            0 <= s < k,
            0 <= h < n,
            0 <= d,
    ;
    assert(0 * c.kv_len() == 0 && 0 * (n * d) == 0) by (nonlinear_arith);
    assert forall|i: int| 0 <= i < d implies #[trigger] a[i] == b[i] by {
        assert((h * d + i) / d == h && (h * d + i) % d == i) by (nonlinear_arith)
            requires
                0 <= i < d,
                0 <= h,
        ;
    }
    assert(a =~= b);
}

} // verus!
