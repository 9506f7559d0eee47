//! Borrowed views of model weights, by name.
//!
//! Tensor names:
//!   `token_embd.weight`, `output_norm.weight`, `output.weight`,
//!   `blk.{l}.attn_norm.weight`, `attn_q`, `attn_k`, `attn_v`, `attn_output`,
//!   `blk.{l}.ffn_norm.weight`, `ffn_gate`, `ffn_up`, `ffn_down`.
//!
//! Matrices are row-major `[rows, cols]`, which is `[outputs, inputs]`.

use vstd::prelude::*;
use vstd::slice::slice_subrange;
use vstd::string::StringExecFns;

use crate::decimal::{decimal, to_decimal};
use crate::gguf::dtype::{Element, GgmlType};
use crate::gguf::format::{viewed, GgufError};
use crate::gguf::{GgufFile, Vector};
use crate::model::config::Config;

verus! {

/// Why the weights of a model could not be bound.
#[derive(Clone, Copy, Debug, PartialEq, Eq, Structural)]
pub enum WeightError {
    /// The tensor could not be read.
    Tensor(GgufError),
    /// The tensor holds another number of bytes than its use asks for.
    Shape,
}

/// Bytes per row of `cols` elements.
pub open spec fn row_size(dtype: GgmlType, cols: int) -> int {
    cols / dtype.elems() * dtype.bytes()
}

/// Whether `len` bytes hold a matrix of whole blocks.
pub open spec fn fits(len: int, dtype: GgmlType, rows: int, cols: int) -> bool {
    &&& cols % dtype.elems() == 0
    &&& len == rows * row_size(dtype, cols)
}

/// A weight matrix: its element type, its shape, and its bytes.
#[verifier::ext_equal]
pub struct MatrixView {
    pub bytes: Seq<u8>,
    pub dtype: GgmlType,
    pub rows: int,
    pub cols: int,
}

impl MatrixView {
    /// The bytes of row `m`.
    pub open spec fn row(self, m: int) -> Seq<u8> {
        let n = row_size(self.dtype, self.cols);
        self.bytes.subrange(m * n, m * n + n)
    }

    /// The bytes of block `b` of row `m`.
    pub open spec fn block(self, m: int, b: int) -> Seq<u8> {
        let n = self.dtype.bytes();
        self.row(m).subrange(b * n, b * n + n)
    }

    /// Element `i` of row `m`.
    pub open spec fn element(self, m: int, i: int) -> Element {
        self.dtype.element(self.row(m), i)
    }
}

/// The matrix of a tensor.
pub open spec fn matrix_of(g: GgufFile, name: Seq<char>, rows: int, cols: int) -> Result<
    MatrixView,
    WeightError,
> {
    match g.raw(name) {
        Err(e) => Err(WeightError::Tensor(e)),
        Ok((bytes, dtype)) => if fits(bytes.len() as int, dtype, rows, cols) {
            Ok(MatrixView { bytes, dtype, rows, cols })
        } else {
            Err(WeightError::Shape)
        },
    }
}

/// The numbers of an F32 tensor, as bit patterns.
pub open spec fn vector_of(g: GgufFile, name: Seq<char>, len: int) -> Result<
    Seq<u32>,
    WeightError,
> {
    match g.singles(name) {
        Err(e) => Err(WeightError::Tensor(e)),
        Ok(v) => if v.len() == len {
            Ok(v)
        } else {
            Err(WeightError::Shape)
        },
    }
}

/// A borrowed weight matrix.
#[derive(Clone, Copy)]
pub struct Matrix<'a> {
    bytes: &'a [u8],
    dtype: GgmlType,
    rows: usize,
    cols: usize,
}

impl<'a> View for Matrix<'a> {
    type V = MatrixView;

    closed spec fn view(&self) -> MatrixView {
        MatrixView {
            bytes: self.bytes@,
            dtype: self.dtype,
            rows: self.rows as int,
            cols: self.cols as int,
        }
    }
}

proof fn lemma_row(rows: int, n: int, m: int)
    by (nonlinear_arith)
    requires
        0 <= m < rows,
        0 <= n,
    ensures
        0 <= m * n,
        m * n + n <= rows * n,
{
}

impl<'a> Matrix<'a> {
    #[verifier::type_invariant]
    spec fn wf(self) -> bool {
        fits(self.bytes@.len() as int, self.dtype, self.rows as int, self.cols as int)
    }

    /// Binds the tensor `name` as a matrix of `rows` rows and `cols` columns.
    pub fn bind(g: &'a GgufFile, name: &str, rows: usize, cols: usize) -> (r: Result<
        Matrix<'a>,
        WeightError,
    >)
        ensures
            viewed(r) == matrix_of(*g, name@, rows as int, cols as int),
    {
        let (bytes, dtype) = match g.tensor_raw(name) {
            Ok(x) => x,
            Err(e) => return Err(WeightError::Tensor(e)),
        };
        let be: usize = dtype.block_elems();
        if cols % be != 0 {
            return Err(WeightError::Shape);
        }
        let (blocks, bb) = ((cols / be) as u128, dtype.block_bytes() as u128);
        assert(0 <= blocks * bb <= 210 * u64::MAX) by (nonlinear_arith)
            requires
                0 <= blocks <= u64::MAX,
                0 <= bb <= 210,
        ;
        let n: u128 = blocks * bb;
        if !times_is(rows, n, bytes.len()) {
            return Err(WeightError::Shape);
        }
        Ok(Matrix { bytes, dtype, rows, cols })
    }

    pub fn rows(&self) -> (n: usize)
        ensures
            n == self@.rows,
    {
        self.rows
    }

    pub fn cols(&self) -> (n: usize)
        ensures
            n == self@.cols,
    {
        self.cols
    }

    pub fn dtype(&self) -> (t: GgmlType)
        ensures
            t == self@.dtype,
    {
        self.dtype
    }

    /// The bytes of all rows.
    pub fn bytes(&self) -> (b: &'a [u8])
        ensures
            b@ == self@.bytes,
    {
        self.bytes
    }

    /// The bytes of row `m`.
    pub fn row(&self, m: usize) -> (b: &'a [u8])
        requires
            m < self@.rows,
        ensures
            b@ == self@.row(m as int),
            b@.len() == row_size(self@.dtype, self@.cols),
    {
        proof {
            use_type_invariant(self);
        }
        let ghost n = row_size(self.dtype, self.cols as int);
        let (blocks, bb) = (self.cols / self.dtype.block_elems(), self.dtype.block_bytes());
        proof {
            assert(n == blocks * bb);
            assert(0 <= n) by (nonlinear_arith)
                requires
                    n == blocks * bb,
                    blocks >= 0,
                    bb >= 0,
            ;
            lemma_row(self.rows as int, n, m as int);
            assert(self.bytes@.len() == self.bytes.len());
            assert(n <= m * n + n);
        }
        let size: usize = blocks * bb;
        slice_subrange(self.bytes, m * size, m * size + size)
    }

    /// The number of blocks in a row.
    pub fn row_blocks(&self) -> (n: usize)
        ensures
            n == self@.cols / self@.dtype.elems(),
            fits(self@.bytes.len() as int, self@.dtype, self@.rows, self@.cols),
    {
        proof {
            use_type_invariant(self);
        }
        self.cols / self.dtype.block_elems()
    }

    /// The bytes of block `b` of row `m`.
    pub fn block(&self, m: usize, b: usize) -> (r: &'a [u8])
        requires
            m < self@.rows,
            b < self@.cols / self@.dtype.elems(),
        ensures
            r@ == self@.block(m as int, b as int),
            r@.len() == self@.dtype.bytes(),
    {
        let row: &[u8] = self.row(m);
        let bb: usize = self.dtype.block_bytes();
        proof {
            let n = self@.cols / self@.dtype.elems();
            assert(0 <= b * bb && b * bb + bb <= n * bb) by (nonlinear_arith)
                requires
                    0 <= b < n,
                    0 <= bb,
            ;
            assert(row@.len() == row.len());
        }
        slice_subrange(row, b * bb, b * bb + bb)
    }

    /// Decodes row `m`, element by element.
    pub fn dequant_row(&self, m: usize, out: &mut [Element])
        requires
            m < self@.rows,
            old(out)@.len() == self@.cols,
        ensures
            final(out)@ == Seq::new(old(out)@.len(), |i: int| self@.element(m as int, i)),
    {
        proof {
            use_type_invariant(self);
        }
        let raw: &[u8] = self.row(m);
        self.dtype.dequantize(raw, out);
        assert(out@ =~= Seq::new(old(out)@.len(), |i: int| self@.element(m as int, i)));
    }
}

/// A row is its blocks: element `j` of block `b` is element `b * elems + j` of
/// the row.
pub proof fn blocks_make_the_row(w: MatrixView, m: int, b: int, j: int)
    requires
        fits(w.bytes.len() as int, w.dtype, w.rows, w.cols),
        0 <= m < w.rows,
        0 <= b < w.cols / w.dtype.elems(),
        0 <= j < w.dtype.elems(),
    ensures
        w.element(m, b * w.dtype.elems() + j) == w.dtype.element(w.block(m, b), j),
{
    let (be, bb) = (w.dtype.elems(), w.dtype.bytes());
    let (k, n) = (w.cols / be, row_size(w.dtype, w.cols));
    assert(0 <= n && 0 <= b * bb && b * bb + bb <= n) by (nonlinear_arith)
        requires
            n == k * bb,
            0 <= b < k,
            bb > 0,
    ;
    lemma_row(w.rows, n, m);
    assert((b * be + j) / be == b && (b * be + j) % be == j) by {
        vstd::arithmetic::div_mod::lemma_fundamental_div_mod_converse(b * be + j, be, b, j);
    }
    assert(j / be == 0 && j % be == j) by {
        vstd::arithmetic::div_mod::lemma_fundamental_div_mod_converse(j, be, 0, j);
    }
    assert(bb * b == b * bb) by (nonlinear_arith);
    assert(bb * 0 == 0);
    lemma_block_moved(w.dtype, w.row(m), b * bb, bb, 0, j);
}

/// Row-major: element `i` of row `m` is element `m * cols + i` of the tensor.
pub proof fn rows_follow_each_other(w: MatrixView, m: int, i: int)
    requires
        fits(w.bytes.len() as int, w.dtype, w.rows, w.cols),
        0 <= m < w.rows,
        0 <= i < w.cols,
    ensures
        w.element(m, i) == w.dtype.element(w.bytes, m * w.cols + i),
{
    let (be, bb) = (w.dtype.elems(), w.dtype.bytes());
    let n = row_size(w.dtype, w.cols);
    let k = w.cols / be;
    assert(w.cols == k * be) by (nonlinear_arith)
        requires
            k == w.cols / be,
            w.cols % be == 0,
            be > 0,
    ;
    assert(n >= 0) by (nonlinear_arith)
        requires
            n == k * bb,
            w.cols == k * be,
            w.cols > 0,
            be > 0,
            bb > 0,
    ;
    lemma_row(w.rows, n, m);
    let (blk, j) = (i / be, i % be);
    assert(i == blk * be + j && 0 <= j < be && 0 <= blk < k) by (nonlinear_arith)
        requires
            blk == i / be,
            j == i % be,
            be > 0,
            0 <= i < k * be,
    ;
    assert((m * w.cols + i) / be == m * k + blk && (m * w.cols + i) % be == j) by {
        assert(m * (k * be) + (blk * be + j) == (m * k + blk) * be + j) by (nonlinear_arith);
        vstd::arithmetic::div_mod::lemma_fundamental_div_mod_converse(
            m * w.cols + i,
            be,
            m * k + blk,
            j,
        );
    }
    assert(bb * (m * k + blk) == m * n + bb * blk) by (nonlinear_arith)
        requires
            n == k * bb,
    ;
    assert(0 <= bb * blk && bb * blk + bb <= n) by (nonlinear_arith)
        requires
            n == k * bb,
            0 <= blk < k,
            bb > 0,
    ;
    lemma_block_moved(w.dtype, w.bytes, m * n, n, bb * blk, j);
}

/// A block reads the same in a part of the data as in the whole.
proof fn lemma_block_moved(t: GgmlType, raw: Seq<u8>, start: int, n: int, p: int, j: int)
    requires
        0 <= start,
        start + n <= raw.len(),
        0 <= p,
        p + t.bytes() <= n,
        0 <= j < t.elems(),
    ensures
        t.block_element(raw.subrange(start, start + n), p, j) == t.block_element(raw, start + p, j),
{
    let part = raw.subrange(start, start + n);
    assert(forall|x: int| 0 <= x < n ==> #[trigger] part[x] == raw[start + x]);
}

/// Whether `a * b` is `c`.
fn times_is(a: usize, b: u128, c: usize) -> (r: bool)
    ensures
        r == (a * b == c),
{
    if a == 0 || b == 0 {
        assert(a * b == 0) by (nonlinear_arith)
            requires
                a == 0 || b == 0,
        ;
        return c == 0;
    }
    let q: u128 = c as u128 / b;
    let rest: u128 = c as u128 % b;
    proof {
        assert(c == b * q + rest && 0 <= rest < b) by (nonlinear_arith)
            requires
                b > 0,
                q == c as int / b as int,
                rest == c as int % b as int,
        ;
        assert((a * b == c) == (q == a && rest == 0)) by (nonlinear_arith)
            requires
                c == b * q + rest,
                0 <= rest < b,
        ;
    }
    q == a as u128 && rest == 0
}

impl<'a> Vector<'a> {
    /// Binds the F32 tensor `name` as a vector of `len` numbers.
    pub fn bind(g: &'a GgufFile, name: &str, len: usize) -> (r: Result<Vector<'a>, WeightError>)
        ensures
            viewed(r) == vector_of(*g, name@, len as int),
    {
        let v: Vector<'a> = match g.tensor_f32(name) {
            Ok(v) => v,
            Err(e) => return Err(WeightError::Tensor(e)),
        };
        if v.len() != len {
            return Err(WeightError::Shape);
        }
        Ok(v)
    }
}

/// The weights of one layer.
#[verifier::ext_equal]
pub struct LayerView {
    pub attn_norm: Seq<u32>,
    pub attn_q: MatrixView,
    pub attn_k: MatrixView,
    pub attn_v: MatrixView,
    pub attn_output: MatrixView,
    pub ffn_norm: Seq<u32>,
    pub ffn_gate: MatrixView,
    pub ffn_up: MatrixView,
    pub ffn_down: MatrixView,
}

/// The weights of a model.
#[verifier::ext_equal]
pub struct WeightsView {
    pub token_embd: MatrixView,
    pub output_norm: Seq<u32>,
    pub output: MatrixView,
    pub layers: Seq<LayerView>,
}

/// The name of a tensor of layer `l`.
pub open spec fn layer_name(l: int, part: Seq<char>) -> Seq<char> {
    "blk."@ + decimal(l as nat) + "."@ + part + ".weight"@
}

fn layer_tensor(l: usize, part: &str) -> (name: String)
    ensures
        name@ == layer_name(l as int, part@),
{
    let mut name: String = String::from_str("blk.");
    let number: String = to_decimal(l);
    name.append(number.as_str());
    name.append(".");
    name.append(part);
    name.append(".weight");
    name
}

/// The attention weights of layer `l`.
pub open spec fn attention_of(g: GgufFile, c: Config, l: int) -> Result<
    (Seq<u32>, MatrixView, MatrixView, MatrixView, MatrixView),
    WeightError,
> {
    let (e, kv) = (c.n_embd as int, c.kv_len());
    match (
        vector_of(g, layer_name(l, "attn_norm"@), e),
        matrix_of(g, layer_name(l, "attn_q"@), e, e),
        matrix_of(g, layer_name(l, "attn_k"@), kv, e),
        matrix_of(g, layer_name(l, "attn_v"@), kv, e),
        matrix_of(g, layer_name(l, "attn_output"@), e, e),
    ) {
        (Err(x), _, _, _, _) => Err(x),
        (_, Err(x), _, _, _) => Err(x),
        (_, _, Err(x), _, _) => Err(x),
        (_, _, _, Err(x), _) => Err(x),
        (_, _, _, _, Err(x)) => Err(x),
        (Ok(norm), Ok(q), Ok(k), Ok(v), Ok(o)) => Ok((norm, q, k, v, o)),
    }
}

/// The feed-forward weights of layer `l`.
pub open spec fn feed_forward_of(g: GgufFile, c: Config, l: int) -> Result<
    (Seq<u32>, MatrixView, MatrixView, MatrixView),
    WeightError,
> {
    let (e, f) = (c.n_embd as int, c.n_ff as int);
    match (
        vector_of(g, layer_name(l, "ffn_norm"@), e),
        matrix_of(g, layer_name(l, "ffn_gate"@), f, e),
        matrix_of(g, layer_name(l, "ffn_up"@), f, e),
        matrix_of(g, layer_name(l, "ffn_down"@), e, f),
    ) {
        (Err(x), _, _, _) => Err(x),
        (_, Err(x), _, _) => Err(x),
        (_, _, Err(x), _) => Err(x),
        (_, _, _, Err(x)) => Err(x),
        (Ok(norm), Ok(gate), Ok(up), Ok(down)) => Ok((norm, gate, up, down)),
    }
}

/// The weights of layer `l`.
pub open spec fn layer_of(g: GgufFile, c: Config, l: int) -> Result<LayerView, WeightError> {
    match (attention_of(g, c, l), feed_forward_of(g, c, l)) {
        (Err(x), _) => Err(x),
        (_, Err(x)) => Err(x),
        (
            Ok((attn_norm, attn_q, attn_k, attn_v, attn_output)),
            Ok((ffn_norm, ffn_gate, ffn_up, ffn_down)),
        ) => Ok(
            LayerView {
                attn_norm,
                attn_q,
                attn_k,
                attn_v,
                attn_output,
                ffn_norm,
                ffn_gate,
                ffn_up,
                ffn_down,
            },
        ),
    }
}

/// The weights of the first `n` layers.
pub open spec fn layers_of(g: GgufFile, c: Config, n: int) -> Result<Seq<LayerView>, WeightError>
    decreases n,
{
    if n <= 0 {
        Ok(seq![])
    } else {
        match layers_of(g, c, n - 1) {
            Err(x) => Err(x),
            Ok(v) => match layer_of(g, c, n - 1) {
                Err(x) => Err(x),
                Ok(w) => Ok(v.push(w)),
            },
        }
    }
}

/// The weights that a file holds for a model. They are bound in this order,
/// and the first that can not be is the error.
pub open spec fn weights_of(g: GgufFile, c: Config) -> Result<WeightsView, WeightError> {
    let (e, n) = (c.n_embd as int, c.vocab_size as int);
    match (
        matrix_of(g, "token_embd.weight"@, n, e),
        vector_of(g, "output_norm.weight"@, e),
        matrix_of(g, "output.weight"@, n, e),
        layers_of(g, c, c.n_layer as int),
    ) {
        (Err(x), _, _, _) => Err(x),
        (_, Err(x), _, _) => Err(x),
        (_, _, Err(x), _) => Err(x),
        (_, _, _, Err(x)) => Err(x),
        (Ok(token_embd), Ok(output_norm), Ok(output), Ok(layers)) => Ok(
            WeightsView { token_embd, output_norm, output, layers },
        ),
    }
}

/// The weights of one layer.
#[derive(Clone, Copy)]
pub struct LayerWeights<'a> {
    pub attn_norm: Vector<'a>,
    pub attn_q: Matrix<'a>,
    pub attn_k: Matrix<'a>,
    pub attn_v: Matrix<'a>,
    pub attn_output: Matrix<'a>,
    pub ffn_norm: Vector<'a>,
    pub ffn_gate: Matrix<'a>,
    pub ffn_up: Matrix<'a>,
    pub ffn_down: Matrix<'a>,
}

impl<'a> View for LayerWeights<'a> {
    type V = LayerView;

    open spec fn view(&self) -> LayerView {
        LayerView {
            attn_norm: self.attn_norm@,
            attn_q: self.attn_q@,
            attn_k: self.attn_k@,
            attn_v: self.attn_v@,
            attn_output: self.attn_output@,
            ffn_norm: self.ffn_norm@,
            ffn_gate: self.ffn_gate@,
            ffn_up: self.ffn_up@,
            ffn_down: self.ffn_down@,
        }
    }
}

/// The weights of a model, borrowed from its file.
pub struct Weights<'a> {
    pub token_embd: Matrix<'a>,
    pub output_norm: Vector<'a>,
    pub output: Matrix<'a>,
    pub layers: Vec<LayerWeights<'a>>,
}

impl<'a> View for Weights<'a> {
    type V = WeightsView;

    open spec fn view(&self) -> WeightsView {
        WeightsView {
            token_embd: self.token_embd@,
            output_norm: self.output_norm@,
            output: self.output@,
            layers: self.layers@.map_values(|l: LayerWeights<'a>| l@),
        }
    }
}

impl<'a> LayerWeights<'a> {
    /// Binds the weights of layer `l`.
    pub fn from_gguf(g: &'a GgufFile, cfg: &Config, l: usize) -> (r: Result<
        LayerWeights<'a>,
        WeightError,
    >)
        requires
            cfg.heads_divide(),
        ensures
            viewed(r) == layer_of(*g, *cfg, l as int),
    {
        let (e, f, kv) = (cfg.n_embd, cfg.n_ff, cfg.kv_dim());
        let attn_norm: Vector = Vector::bind(g, layer_tensor(l, "attn_norm").as_str(), e)?;
        let attn_q: Matrix = Matrix::bind(g, layer_tensor(l, "attn_q").as_str(), e, e)?;
        let attn_k: Matrix = Matrix::bind(g, layer_tensor(l, "attn_k").as_str(), kv, e)?;
        let attn_v: Matrix = Matrix::bind(g, layer_tensor(l, "attn_v").as_str(), kv, e)?;
        let attn_output: Matrix = Matrix::bind(g, layer_tensor(l, "attn_output").as_str(), e, e)?;
        let ffn_norm: Vector = Vector::bind(g, layer_tensor(l, "ffn_norm").as_str(), e)?;
        let ffn_gate: Matrix = Matrix::bind(g, layer_tensor(l, "ffn_gate").as_str(), f, e)?;
        let ffn_up: Matrix = Matrix::bind(g, layer_tensor(l, "ffn_up").as_str(), f, e)?;
        let ffn_down: Matrix = Matrix::bind(g, layer_tensor(l, "ffn_down").as_str(), e, f)?;
        Ok(
            LayerWeights {
                attn_norm,
                attn_q,
                attn_k,
                attn_v,
                attn_output,
                ffn_norm,
                ffn_gate,
                ffn_up,
                ffn_down,
            },
        )
    }
}

proof fn lemma_layers_fail(g: GgufFile, c: Config, i: int, n: int)
    requires
        0 <= i <= n,
        layers_of(g, c, i) is Err,
    ensures
        layers_of(g, c, n) == layers_of(g, c, i),
    decreases n,
{
    if i < n {
        lemma_layers_fail(g, c, i, n - 1);
    }
}

impl<'a> Weights<'a> {
    /// Binds the weights of a model by name.
    pub fn from_gguf(g: &'a GgufFile, cfg: &Config) -> (r: Result<Weights<'a>, WeightError>)
        requires
            cfg.heads_divide(),
        ensures
            viewed(r) == weights_of(*g, *cfg),
    {
        let (e, n) = (cfg.n_embd, cfg.vocab_size);
        let token_embd: Matrix = Matrix::bind(g, "token_embd.weight", n, e)?;
        let output_norm: Vector = Vector::bind(g, "output_norm.weight", e)?;
        let output: Matrix = Matrix::bind(g, "output.weight", n, e)?;
        let mut layers: Vec<LayerWeights<'a>> = Vec::new();
        let ghost f = |l: LayerWeights<'a>| l@;
        let mut l: usize = 0;
        assert(layers@.map_values(f) =~= seq![]);
        while l < cfg.n_layer
            invariant
                cfg.heads_divide(),
                f == (|l: LayerWeights<'a>| l@),
                l <= cfg.n_layer,
                matrix_of(*g, "token_embd.weight"@, cfg.vocab_size as int, cfg.n_embd as int) is Ok,
                vector_of(*g, "output_norm.weight"@, cfg.n_embd as int) is Ok,
                matrix_of(*g, "output.weight"@, cfg.vocab_size as int, cfg.n_embd as int) is Ok,
                layers_of(*g, *cfg, l as int) == Ok::<Seq<LayerView>, WeightError>(
                    layers@.map_values(f),
                ),
            decreases cfg.n_layer - l,
        {
            match LayerWeights::from_gguf(g, cfg, l) {
                Ok(w) => {
                    let ghost before = layers@.map_values(f);
                    layers.push(w);
                    assert(layers@.map_values(f) =~= before.push(w@));
                },
                Err(x) => {
                    proof {
                        lemma_layers_fail(*g, *cfg, l + 1, cfg.n_layer as int);
                    }
                    return Err(x);
                },
            }
            l += 1;
        }
        Ok(Weights { token_embd, output_norm, output, layers })
    }
}

} // verus!
