//! The loops around the arithmetic, run on single-precision numbers.

use std::cell::Cell;

use rand::rngs::StdRng;
use rand::{Rng, SeedableRng};

use talos::eval::{perplexity, token_nll, Scoring};
use talos::gguf::dtype::{Element, Scale};
use talos::gguf::{GgufError, GgufFile, Vector};
use talos::kv_cache::KvCache;
use talos::math::kernels::Kernels;
use talos::math::ops::{accumulate, rmsnorm, softmax, swiglu};
use talos::math::quant::{embed, matvec, row_dot};
use talos::math::rope::rope;
use talos::model::attention::attend;
use talos::model::config::Config;
use talos::model::forward::ForwardError;
use talos::model::plan::Mat;
use talos::model::weights::{Matrix, WeightError};
use talos::model::Model;
use talos::sample::{sample, Drawing};

/// Single-precision arithmetic. A short one drops the last row of a product.
struct Cpu {
    short: Cell<Option<Mat>>,
}

fn cpu() -> Cpu {
    Cpu { short: Cell::new(None) }
}

fn half(bits: u16) -> f32 {
    let sign = if bits >> 15 == 1 { -1.0 } else { 1.0 };
    let (e, m) = ((bits >> 10 & 31) as i32, (bits & 1023) as f32);
    if e == 0 {
        sign * m * 2f32.powi(-24)
    } else {
        sign * (1.0 + m / 1024.0) * 2f32.powi(e - 15)
    }
}

fn silu(x: f32) -> f32 {
    x / (1.0 + (-x).exp())
}

impl Kernels for Cpu {
    type Num = f32;

    fn zero(&self) -> f32 {
        0.0
    }

    fn plus(&self, a: f32, b: f32) -> f32 {
        a + b
    }

    fn mix(&self, acc: f32, share: f32, value: f32) -> f32 {
        acc + share * value
    }

    fn value(&self, e: Element) -> f32 {
        let scale = match e.scale {
            Scale::Single(bits) => f32::from_bits(bits),
            Scale::Half(bits) => half(bits),
        };
        scale * e.sub as f32 * e.quant as f32
    }

    fn block_dot(&self, block: &[Element], x: &[f32]) -> f32 {
        assert_eq!(block.len(), x.len());
        block.iter().zip(x).map(|(e, v)| self.value(*e) * v).sum()
    }

    fn matvec(&self, mat: Mat, w: &Matrix<'_>, x: &[f32]) -> Vec<f32> {
        let mut out = matvec(self, w, x);
        if self.short.get() == Some(mat) {
            out.pop();
        }
        out
    }

    fn norm_scale(&self, x: &[f32], eps: u32) -> f32 {
        let mean_sq = x.iter().map(|&v| v * v).sum::<f32>() / x.len() as f32;
        1.0 / (mean_sq + f32::from_bits(eps)).sqrt()
    }

    fn scaled(&self, x: f32, scale: f32, weight: u32) -> f32 {
        x * scale * f32::from_bits(weight)
    }

    fn rotate(&self, pos: usize, i: usize, head_dim: usize, base: u32, pair: (f32, f32)) -> (f32, f32) {
        assert!(i < head_dim / 2);
        let theta = pos as f32 * f32::from_bits(base).powf(-2.0 * i as f32 / head_dim as f32);
        let (sin, cos) = theta.sin_cos();
        (pair.0 * cos - pair.1 * sin, pair.0 * sin + pair.1 * cos)
    }

    fn score(&self, query: &[f32], key: &[f32]) -> f32 {
        let scale = 1.0 / (query.len() as f32).sqrt();
        query.iter().zip(key).map(|(a, b)| a * b).sum::<f32>() * scale
    }

    fn lowest(&self) -> f32 {
        f32::NEG_INFINITY
    }

    fn larger(&self, a: f32, b: f32) -> f32 {
        a.max(b)
    }

    fn exp_below(&self, x: f32, top: f32) -> f32 {
        (x - top).exp()
    }

    fn quotient(&self, a: f32, b: f32) -> f32 {
        a / b
    }

    fn gated(&self, gate: f32, up: f32) -> f32 {
        silu(gate) * up
    }
}

impl Scoring for Cpu {
    type Sum = f64;

    fn nothing(&self) -> f64 {
        0.0
    }

    fn add_exp(&self, sum: f64, x: f32, top: f32) -> f64 {
        sum + ((x - top) as f64).exp()
    }

    fn loss(&self, logit: f32, top: f32, sum: f64) -> f32 {
        (sum.ln() - (logit - top) as f64) as f32
    }

    fn add_loss(&self, sum: f64, loss: f32) -> f64 {
        sum + loss as f64
    }

    fn exp_mean(&self, sum: f64, n: usize) -> f32 {
        (sum / n as f64).exp() as f32
    }
}

impl Drawing for Cpu {
    fn bits(&self, x: f32) -> u32 {
        x.to_bits()
    }

    fn is_zero(&self, x: f32) -> bool {
        x == 0.0
    }

    fn below(&self, a: f32, b: f32) -> bool {
        a < b
    }

    fn minus(&self, a: f32, b: f32) -> f32 {
        a - b
    }

    fn times(&self, a: f32, b: f32) -> f32 {
        a * b
    }
}

fn close(a: f32, b: f32) {
    assert!((a - b).abs() < 1e-5, "expected {b}, got {a}");
}

/// A file in the making.
#[derive(Default)]
struct Gguf {
    kv: Vec<u8>,
    n_kv: u64,
    tensors: Vec<(String, Vec<u64>, u32, Vec<u8>)>,
}

fn put_str(buf: &mut Vec<u8>, s: &str) {
    buf.extend_from_slice(&(s.len() as u64).to_le_bytes());
    buf.extend_from_slice(s.as_bytes());
}

impl Gguf {
    fn u32(&mut self, k: &str, v: u32) {
        put_str(&mut self.kv, k);
        self.kv.extend_from_slice(&4u32.to_le_bytes());
        self.kv.extend_from_slice(&v.to_le_bytes());
        self.n_kv += 1;
    }

    fn f32(&mut self, k: &str, v: f32) {
        put_str(&mut self.kv, k);
        self.kv.extend_from_slice(&6u32.to_le_bytes());
        self.kv.extend_from_slice(&v.to_le_bytes());
        self.n_kv += 1;
    }

    fn str(&mut self, k: &str, v: &str) {
        put_str(&mut self.kv, k);
        self.kv.extend_from_slice(&8u32.to_le_bytes());
        put_str(&mut self.kv, v);
        self.n_kv += 1;
    }

    fn arr_str(&mut self, k: &str, v: &[String]) {
        put_str(&mut self.kv, k);
        self.kv.extend_from_slice(&9u32.to_le_bytes());
        self.kv.extend_from_slice(&8u32.to_le_bytes());
        self.kv.extend_from_slice(&(v.len() as u64).to_le_bytes());
        for s in v {
            put_str(&mut self.kv, s);
        }
        self.n_kv += 1;
    }

    /// `dims` is `[cols, rows]`; `data` is row-major `[rows, cols]`.
    fn tensor(&mut self, name: &str, dims: Vec<u64>, data: Vec<f32>) {
        let bytes = data.iter().flat_map(|x| x.to_le_bytes()).collect();
        self.raw(name, dims, 0, bytes);
    }

    fn raw(&mut self, name: &str, dims: Vec<u64>, tag: u32, bytes: Vec<u8>) {
        self.tensors.push((name.to_string(), dims, tag, bytes));
    }

    fn finish(self) -> Vec<u8> {
        let mut buf = Vec::new();
        buf.extend_from_slice(b"GGUF");
        buf.extend_from_slice(&3u32.to_le_bytes());
        buf.extend_from_slice(&(self.tensors.len() as u64).to_le_bytes());
        buf.extend_from_slice(&self.n_kv.to_le_bytes());
        buf.extend_from_slice(&self.kv);

        let align = |x: usize| x.div_ceil(32) * 32;
        let mut off = 0usize;
        let mut offsets = Vec::new();
        for (_, _, _, data) in &self.tensors {
            offsets.push(off as u64);
            off = align(off + data.len());
        }
        for ((name, dims, tag, _), &offset) in self.tensors.iter().zip(&offsets) {
            put_str(&mut buf, name);
            buf.extend_from_slice(&(dims.len() as u32).to_le_bytes());
            for &d in dims {
                buf.extend_from_slice(&d.to_le_bytes());
            }
            buf.extend_from_slice(&tag.to_le_bytes());
            buf.extend_from_slice(&offset.to_le_bytes());
        }
        while buf.len() % 32 != 0 {
            buf.push(0);
        }
        let data_start = buf.len();
        for ((_, _, _, data), &offset) in self.tensors.iter().zip(&offsets) {
            buf.resize(data_start + offset as usize, 0);
            buf.extend_from_slice(data);
        }
        buf
    }
}

/// A file with one tensor, `w`.
fn one_tensor(dims: Vec<u64>, data: Vec<f32>) -> GgufFile<'static> {
    let mut g = Gguf::default();
    g.tensor("w", dims, data);
    GgufFile::from_bytes(g.finish()).unwrap()
}

fn norm_of(x: &[f32], w: &[f32]) -> Vec<f32> {
    let g = one_tensor(vec![w.len() as u64], w.to_vec());
    let weight = Vector::bind(&g, "w", w.len()).unwrap();
    rmsnorm(&cpu(), x, &weight, 0.0f32.to_bits())
}

#[test]
fn rmsnorm_hand() {
    // x = [1, 2, 3], weight = [1, 1, 1], eps = 0.
    // mean(x^2) = (1 + 4 + 9) / 3 = 14/3, scale = 1/sqrt(14/3).
    let out = norm_of(&[1.0, 2.0, 3.0], &[1.0, 1.0, 1.0]);
    let scale = 1.0 / (14.0f32 / 3.0).sqrt();
    close(out[0], 1.0 * scale);
    close(out[1], 2.0 * scale);
    close(out[2], 3.0 * scale);
}

#[test]
fn rmsnorm_weighted() {
    let out = norm_of(&[2.0, 0.0], &[3.0, 5.0]);
    // mean(x^2) = 2, scale = 1/sqrt(2).
    let scale = 1.0 / 2.0f32.sqrt();
    close(out[0], 2.0 * scale * 3.0);
    close(out[1], 0.0);
}

#[test]
fn softmax_sums_to_one_and_known() {
    let x = softmax(&cpu(), &[1.0, 2.0, 3.0]);
    close(x.iter().sum::<f32>(), 1.0);
    // known: exp shifted by max=3 -> [e^-2, e^-1, 1] / sum.
    let denom = (-2.0f32).exp() + (-1.0f32).exp() + 1.0;
    close(x[0], (-2.0f32).exp() / denom);
    close(x[1], (-1.0f32).exp() / denom);
    close(x[2], 1.0 / denom);
}

#[test]
fn softmax_uniform() {
    let x = softmax(&cpu(), &[5.0, 5.0, 5.0, 5.0]);
    assert_eq!(x.len(), 4);
    for &v in &x {
        close(v, 0.25);
    }
}

#[test]
fn swiglu_small() {
    let out = swiglu(&cpu(), &[0.0, 2.0], &[10.0, 3.0]);
    close(out[0], 0.0); // silu(0) * 10 = 0
    close(out[1], silu(2.0) * 3.0);
    assert_eq!(out.len(), 2);
}

#[test]
fn silu_zero() {
    let out = swiglu(&cpu(), &[0.0, 2.0], &[1.0, 1.0]);
    close(out[0], 0.0);
    // silu(x) = x * sigmoid(x); silu(2) = 2 * sigmoid(2).
    close(out[1], 2.0 / (1.0 + (-2.0f32).exp()));
}

#[test]
fn sums_are_elementwise() {
    assert_eq!(accumulate(&cpu(), &[1.0, 2.0], &[10.0, -2.5]), vec![11.0, -0.5]);
}

#[test]
fn rope_preserves_pair_norm() {
    let n_head = 2;
    let head_dim = 4;
    let orig: Vec<f32> = (0..n_head * head_dim).map(|i| (i as f32) + 1.0).collect();
    let v = rope(&cpu(), &orig, 7, n_head, head_dim, 10000.0f32.to_bits());
    // Each adjacent pair (2i, 2i+1) within each head preserves its norm.
    for h in 0..n_head {
        for i in 0..head_dim / 2 {
            let b = h * head_dim;
            let n0 = orig[b + 2 * i].powi(2) + orig[b + 2 * i + 1].powi(2);
            let n1 = v[b + 2 * i].powi(2) + v[b + 2 * i + 1].powi(2);
            close(n1, n0);
        }
    }
}

#[test]
fn rope_pos_zero_identity() {
    let n_head = 3;
    let head_dim = 6;
    let orig: Vec<f32> = (0..n_head * head_dim).map(|i| (i as f32) * 0.5 - 1.0).collect();
    let v = rope(&cpu(), &orig, 0, n_head, head_dim, 10000.0f32.to_bits());
    assert_eq!(v.len(), orig.len());
    for (a, b) in v.iter().zip(&orig) {
        close(*a, *b);
    }
}

#[test]
fn rope_turns_adjacent_pairs() {
    // At position 1, pair 0 of each head turns by one radian; the odd number at
    // the end of a head, and what lies behind the heads, stay.
    let orig = vec![1.0, 0.0, 5.0, 0.0, 1.0, 6.0, 7.0];
    let v = rope(&cpu(), &orig, 1, 2, 3, 10000.0f32.to_bits());
    let (s, c) = 1.0f32.sin_cos();
    assert_eq!(v, vec![c, s, 5.0, -s, c, 6.0, 7.0]);
}

fn naive(w: &[f32], x: &[f32], rows: usize, cols: usize) -> Vec<f32> {
    let mut out = vec![0.0f32; rows];
    for m in 0..rows {
        let mut acc = 0.0f32;
        for k in 0..cols {
            acc += w[m * cols + k] * x[k];
        }
        out[m] = acc;
    }
    out
}

fn check(rows: usize, cols: usize) {
    let mut rng = rand::thread_rng();
    let w: Vec<f32> = (0..rows * cols).map(|_| rng.gen_range(-1.0..1.0)).collect();
    let x: Vec<f32> = (0..cols).map(|_| rng.gen_range(-1.0..1.0)).collect();
    let expected = naive(&w, &x, rows, cols);
    let g = one_tensor(vec![cols as u64, rows as u64], w);
    let out = matvec(&cpu(), &Matrix::bind(&g, "w", rows, cols).unwrap(), &x);
    assert_eq!(out.len(), rows);
    for (a, b) in out.iter().zip(&expected) {
        assert!((a - b).abs() < 1e-5, "expected {b}, got {a}");
    }
}

#[test]
fn matvec_square() {
    check(8, 8);
}

#[test]
fn matvec_non_square() {
    check(5, 13);
    check(13, 5);
}

#[test]
fn matvec_hand() {
    // w = [[1,2],[3,4],[5,6]], x = [1, 1].
    let g = one_tensor(vec![2, 3], vec![1.0, 2.0, 3.0, 4.0, 5.0, 6.0]);
    let w = Matrix::bind(&g, "w", 3, 2).unwrap();
    assert_eq!(matvec(&cpu(), &w, &[1.0, 1.0]), [3.0, 7.0, 11.0]);
    assert_eq!(row_dot(&cpu(), &w, 1, &[2.0, -1.0]), 2.0);
    assert_eq!(embed(&cpu(), &w, 2), [5.0, 6.0]);
}

#[test]
fn quantized_rows_are_multiplied_by_blocks() {
    // Two Q8_0 blocks of one row: scale 0.5 with quants 1, 2, 3, ..., and scale
    // 2 with quants -1.
    let mut bytes = vec![0x00, 0x38];
    bytes.extend((1..=32).map(|q: i8| q as u8));
    bytes.extend([0x00, 0x40]);
    bytes.extend([0xffu8; 32]);
    let mut g = Gguf::default();
    g.raw("w", vec![64, 1], 8, bytes);
    let g = GgufFile::from_bytes(g.finish()).unwrap();
    let w = Matrix::bind(&g, "w", 1, 64).unwrap();
    let mut x = vec![1.0f32; 64];
    // 0.5 * (1 + 2 + ... + 32) - 2 * 32
    assert_eq!(matvec(&cpu(), &w, &x), vec![264.0 - 64.0]);
    x[63] = 3.0;
    assert_eq!(row_dot(&cpu(), &w, 0, &x), 196.0);
    assert_eq!(embed(&cpu(), &w, 0)[..3], [0.5, 1.0, 1.5]);
    assert_eq!(embed(&cpu(), &w, 0)[63], -2.0);
}

#[test]
fn heads_attend_to_the_kv_head_that_they_share() {
    // Four query heads of two numbers, sharing two kv heads.
    let c = Config {
        n_layer: 1,
        n_head: 4,
        n_head_kv: 2,
        n_embd: 8,
        n_ff: 1,
        context_length: 4,
        vocab_size: 1,
        rms_eps: 0,
        rope_dim: 2,
        rope_freq_base: 0,
    };
    let mut kv: KvCache<f32> = KvCache::new(1, 2, 2, 4);
    kv.append(0, &[1.0, 0.0, 0.0, 1.0], &[1.0, 2.0, 3.0, 4.0]);
    // One position: every head reads its value whole.
    let q = [0.0, 0.0, 7.0, 1.0, 1.0, 1.0, 2.0, 0.0];
    assert_eq!(attend(&cpu(), &c, &kv, 0, &q), [1.0, 2.0, 1.0, 2.0, 3.0, 4.0, 3.0, 4.0]);
    // Two positions, with equal scores for head 0 and for head 3.
    kv.append(0, &[1.0, 0.0, 0.0, 1.0], &[3.0, 4.0, 5.0, 6.0]);
    let out = attend(&cpu(), &c, &kv, 0, &q);
    assert_eq!(out[..2], [2.0, 3.0]);
    assert_eq!(out[6..], [4.0, 5.0]);
}

// --- a small model ---
const EMBD: usize = 16;
const N_HEAD: usize = 4;
const N_HEAD_KV: usize = 2; // group size 2
const HD: usize = EMBD / N_HEAD; // 4
const FF: usize = 32;
const VOCAB: usize = 16;
const N_LAYER: usize = 2;
const CTX: usize = 32;
const GROUP: usize = N_HEAD / N_HEAD_KV;

fn base_meta(g: &mut Gguf, n_head_kv: usize) {
    g.str("general.architecture", "llama");
    g.u32("llama.context_length", CTX as u32);
    g.u32("llama.embedding_length", EMBD as u32);
    g.u32("llama.block_count", N_LAYER as u32);
    g.u32("llama.feed_forward_length", FF as u32);
    g.u32("llama.attention.head_count", N_HEAD as u32);
    g.u32("llama.attention.head_count_kv", n_head_kv as u32);
    g.f32("llama.attention.layer_norm_rms_epsilon", 1e-5);
    g.u32("llama.rope.dimension_count", HD as u32);
    g.f32("llama.rope.freq_base", 10000.0);
    let tokens: Vec<String> =
        (0..VOCAB).map(|i| if i == 0 { "<unk>".into() } else { format!("t{i}") }).collect();
    g.arr_str("tokenizer.ggml.tokens", &tokens);
    g.arr_str("tokenizer.ggml.merges", &[]);
    g.u32("tokenizer.ggml.unknown_token_id", 0);
    g.u32("tokenizer.ggml.bos_token_id", 0);
    g.u32("tokenizer.ggml.eos_token_id", 0);
}

/// One layer's shared (group-independent) weights, plus full per-head K and V.
struct Layer {
    attn_norm: Vec<f32>,
    q: Vec<f32>,
    k_full: Vec<f32>, // [N_HEAD*HD, EMBD]
    v_full: Vec<f32>,
    attn_output: Vec<f32>,
    ffn_norm: Vec<f32>,
    ffn_gate: Vec<f32>,
    ffn_up: Vec<f32>,
    ffn_down: Vec<f32>,
}

struct Drawn {
    embd: Vec<f32>,
    out_norm: Vec<f32>,
    out: Vec<f32>,
    layers: Vec<Layer>,
}

fn draw_weights() -> Drawn {
    let mut rng = StdRng::seed_from_u64(7);
    let mut rv = |n: usize| (0..n).map(|_| rng.gen_range(-0.5f32..0.5)).collect::<Vec<_>>();
    Drawn {
        embd: rv(VOCAB * EMBD),
        out_norm: rv(EMBD),
        out: rv(VOCAB * EMBD),
        layers: (0..N_LAYER)
            .map(|_| Layer {
                attn_norm: rv(EMBD),
                q: rv(EMBD * EMBD),
                k_full: rv(EMBD * EMBD),
                v_full: rv(EMBD * EMBD),
                attn_output: rv(EMBD * EMBD),
                ffn_norm: rv(EMBD),
                ffn_gate: rv(FF * EMBD),
                ffn_up: rv(FF * EMBD),
                ffn_down: rv(EMBD * FF),
            })
            .collect(),
    }
}

/// Take a head's `HD` rows (each EMBD wide) out of a full projection.
fn head_rows(full: &[f32], head: usize) -> &[f32] {
    &full[head * HD * EMBD..(head + 1) * HD * EMBD]
}

fn build(gqa: bool, d: &Drawn) -> Vec<u8> {
    let mut g = Gguf::default();
    base_meta(&mut g, if gqa { N_HEAD_KV } else { N_HEAD });
    g.tensor("token_embd.weight", vec![EMBD as u64, VOCAB as u64], d.embd.to_vec());
    g.tensor("output_norm.weight", vec![EMBD as u64], d.out_norm.to_vec());
    g.tensor("output.weight", vec![EMBD as u64, VOCAB as u64], d.out.to_vec());

    for (l, ly) in d.layers.iter().enumerate() {
        // K/V either keep n_head_kv group-leader heads (GQA) or replicate each
        // group leader across the whole group (equivalent MHA).
        let kv_rows = if gqa { N_HEAD_KV } else { N_HEAD };
        let (mut k, mut v) = (Vec::new(), Vec::new());
        for r in 0..kv_rows {
            let leader = if gqa { r * GROUP } else { (r / GROUP) * GROUP };
            k.extend_from_slice(head_rows(&ly.k_full, leader));
            v.extend_from_slice(head_rows(&ly.v_full, leader));
        }
        let kv_dim = kv_rows * HD;

        let p = |n: &str| format!("blk.{l}.{n}");
        g.tensor(&p("attn_norm.weight"), vec![EMBD as u64], ly.attn_norm.clone());
        g.tensor(&p("attn_q.weight"), vec![EMBD as u64, EMBD as u64], ly.q.clone());
        g.tensor(&p("attn_k.weight"), vec![EMBD as u64, kv_dim as u64], k);
        g.tensor(&p("attn_v.weight"), vec![EMBD as u64, kv_dim as u64], v);
        g.tensor(&p("attn_output.weight"), vec![EMBD as u64, EMBD as u64], ly.attn_output.clone());
        g.tensor(&p("ffn_norm.weight"), vec![EMBD as u64], ly.ffn_norm.clone());
        g.tensor(&p("ffn_gate.weight"), vec![EMBD as u64, FF as u64], ly.ffn_gate.clone());
        g.tensor(&p("ffn_up.weight"), vec![EMBD as u64, FF as u64], ly.ffn_up.clone());
        g.tensor(&p("ffn_down.weight"), vec![FF as u64, EMBD as u64], ly.ffn_down.clone());
    }
    g.finish()
}

fn load(bytes: Vec<u8>) -> Model<'static, f32> {
    Model::load(GgufFile::from_bytes(bytes).unwrap()).map_err(|_| ()).unwrap()
}

fn run(bytes: Vec<u8>) -> Vec<f32> {
    let mut m = load(bytes);
    let mut logits = Vec::new();
    for (pos, tok) in [1u32, 2, 3, 4, 5].into_iter().enumerate() {
        logits = m.forward(&cpu(), tok, pos).unwrap();
    }
    logits
}

#[test]
fn gqa_matches_replicated_mha() {
    let d = draw_weights();
    let gqa = run(build(true, &d));
    let mha = run(build(false, &d));
    assert_eq!(gqa.len(), VOCAB);
    assert_eq!(mha.len(), VOCAB);
    let max_diff = gqa.iter().zip(&mha).map(|(a, b)| (a - b).abs()).fold(0.0f32, f32::max);
    assert!(max_diff <= 1e-5, "GQA diverged from replicated MHA: {max_diff}");
    assert!(gqa.iter().any(|&x| x != gqa[0]));
}

/// The forward pass written out, for the last of a few tokens.
fn reference(d: &Drawn, tokens: &[u32]) -> Vec<f32> {
    let norm = |x: &[f32], w: &[f32]| -> Vec<f32> {
        let ms = x.iter().map(|v| v * v).sum::<f32>() / x.len() as f32;
        let s = 1.0 / (ms + 1e-5).sqrt();
        x.iter().zip(w).map(|(a, b)| a * s * b).collect()
    };
    let turn = |v: &mut [f32], pos: usize| {
        for h in 0..v.len() / HD {
            for i in 0..HD / 2 {
                let t = pos as f32 * 10000f32.powf(-2.0 * i as f32 / HD as f32);
                let (s, c) = t.sin_cos();
                let (a, b) = (v[h * HD + 2 * i], v[h * HD + 2 * i + 1]);
                v[h * HD + 2 * i] = a * c - b * s;
                v[h * HD + 2 * i + 1] = a * s + b * c;
            }
        }
    };
    let mut keys: Vec<Vec<Vec<f32>>> = vec![Vec::new(); N_LAYER];
    let mut vals: Vec<Vec<Vec<f32>>> = vec![Vec::new(); N_LAYER];
    let mut logits = Vec::new();
    for (pos, &t) in tokens.iter().enumerate() {
        let mut x = d.embd[t as usize * EMBD..][..EMBD].to_vec();
        for (l, ly) in d.layers.iter().enumerate() {
            let n = norm(&x, &ly.attn_norm);
            let mut q = naive(&ly.q, &n, EMBD, EMBD);
            let mut k = naive(&ly.k_full, &n, EMBD, EMBD);
            let v = naive(&ly.v_full, &n, EMBD, EMBD);
            turn(&mut q, pos);
            turn(&mut k, pos);
            keys[l].push(k);
            vals[l].push(v);
            let mut att = vec![0.0f32; EMBD];
            for h in 0..N_HEAD {
                // The first head of a group leads it.
                let (at, from) = (h * HD, h / GROUP * GROUP * HD);
                let scores: Vec<f32> = keys[l]
                    .iter()
                    .map(|k| (0..HD).map(|i| q[at + i] * k[from + i]).sum::<f32>() / 2.0)
                    .collect();
                let total: f32 = scores.iter().map(|s| s.exp()).sum();
                for (s, v) in scores.iter().zip(&vals[l]) {
                    for i in 0..HD {
                        att[at + i] += s.exp() / total * v[from + i];
                    }
                }
            }
            for (a, b) in x.iter_mut().zip(naive(&ly.attn_output, &att, EMBD, EMBD)) {
                *a += b;
            }
            let n = norm(&x, &ly.ffn_norm);
            let gate = naive(&ly.ffn_gate, &n, FF, EMBD);
            let up = naive(&ly.ffn_up, &n, FF, EMBD);
            let glu: Vec<f32> = gate.iter().zip(&up).map(|(g, u)| silu(*g) * u).collect();
            for (a, b) in x.iter_mut().zip(naive(&ly.ffn_down, &glu, EMBD, FF)) {
                *a += b;
            }
        }
        logits = naive(&d.out, &norm(&x, &d.out_norm), VOCAB, EMBD);
    }
    logits
}

#[test]
fn forward_computes_the_logits() {
    let d = draw_weights();
    let want = reference(&d, &[1, 2, 3, 4, 5]);
    let got = run(build(true, &d));
    for (a, b) in got.iter().zip(&want) {
        assert!((a - b).abs() < 1e-4, "expected {b}, got {a}");
    }
}

#[test]
fn decode_steps_add_one_row_to_every_layer() {
    let mut m = load(build(true, &draw_weights()));
    let a = m.prefill(&cpu(), &[1, 2, 3]).unwrap();
    assert_eq!(m.kv.len(), 3);
    for l in 0..N_LAYER {
        assert_eq!(m.kv.rows(l), 3);
        assert_eq!(m.kv.keys(l).len(), 3 * N_HEAD_KV * HD);
        assert_eq!(m.kv.values(l).len(), 3 * N_HEAD_KV * HD);
    }
    let before = m.kv.keys(1).to_vec();
    m.forward(&cpu(), 4, 3).unwrap();
    assert_eq!(m.kv.len(), 4);
    assert_eq!(m.kv.keys(1)[..before.len()], before[..]);
    // A fresh sequence forgets the old one.
    let b = m.prefill(&cpu(), &[1, 2, 3]).unwrap();
    assert_eq!(m.kv.len(), 3);
    assert_eq!(a, b);
}

#[test]
fn short_products_are_refused() {
    let mut m = load(build(true, &draw_weights()));
    let k = cpu();
    // The output projection comes last.
    k.short.set(Some(Mat::Output));
    assert_eq!(m.forward(&k, 1, 0).err(), Some(ForwardError::Kernel(2 + 16 * N_LAYER)));
    assert_eq!(m.kv.rows(1), 1);
    // The keys of the second layer come before its cache is touched.
    k.short.set(Some(Mat::K(1)));
    assert_eq!(m.prefill(&k, &[1, 2]).err(), Some(ForwardError::Kernel(1 + 16 + 2)));
    assert_eq!((m.kv.rows(0), m.kv.rows(1)), (1, 0));
    assert_eq!(perplexity(&k, &mut m, &[1, 2]).err(), Some(ForwardError::Kernel(19)));
    k.short.set(None);
    assert!(m.forward(&k, 1, 0).is_ok());
}

#[test]
fn missing_weights_are_refused() {
    let mut g = Gguf::default();
    base_meta(&mut g, N_HEAD_KV);
    let mut m = load(g.finish());
    let missing = ForwardError::Weights(WeightError::Tensor(GgufError::NoSuchTensor));
    assert_eq!(m.forward(&cpu(), 1, 0).err(), Some(missing));
    assert!(m.kv.is_empty());
    // A fresh sequence drops the old rows first.
    let row = [1.0; N_HEAD_KV * HD];
    m.kv.append(0, &row, &row);
    assert_eq!(m.prefill(&cpu(), &[1]).err(), Some(missing));
    assert!(m.kv.is_empty());
    m.kv.append(0, &row, &row);
    assert_eq!(perplexity(&cpu(), &mut m, &[1, 2]).err(), Some(missing));
    assert!(m.kv.is_empty());
}

#[test]
fn uniform_logits_score_ln_vocab() {
    // All logits equal => softmax is uniform over V => p(target) = 1/V for
    // any target, so the NLL is exactly ln(V).
    let v = 50usize;
    let logits = vec![0.0f32; v];
    for target in [0u32, 7, (v - 1) as u32] {
        let nll = token_nll(&cpu(), &logits, target);
        assert!((nll - (v as f32).ln()).abs() < 1e-4, "got {nll}");
    }
}

#[test]
fn confident_correct_prediction_scores_near_zero() {
    // A huge logit on the target drives softmax(target) -> 1, NLL -> 0.
    let mut logits = vec![0.0f32; 16];
    logits[5] = 100.0;
    assert!(token_nll(&cpu(), &logits, 5) < 1e-3);
}

#[test]
fn nll_matches_hand_computed_softmax() {
    // logits [1, 2, 3]: p(target=2) = e^3 / (e^1 + e^2 + e^3).
    let logits = [1.0f32, 2.0, 3.0];
    let denom = 1f64.exp() + 2f64.exp() + 3f64.exp();
    let expected = -(3f64.exp() / denom).ln() as f32;
    assert!((token_nll(&cpu(), &logits, 2) - expected).abs() < 1e-5);
}

#[test]
fn perplexity_averages_the_losses() {
    let d = draw_weights();
    let mut m = load(build(true, &d));
    let tokens = [3u32, 1, 4, 1, 5];
    let mut nll = 0.0f64;
    for n in 1..tokens.len() {
        let logits = reference(&d, &tokens[..n]);
        nll += token_nll(&cpu(), &logits, tokens[n]) as f64;
    }
    let want = (nll / 4.0).exp() as f32;
    // What was cached before does not count.
    m.forward(&cpu(), 9, 0).unwrap();
    let got = perplexity(&cpu(), &mut m, &tokens).unwrap();
    assert!((got - want).abs() < 1e-3, "expected {want}, got {got}");
    assert_eq!(m.kv.len(), 4);
}

#[test]
fn perplexity_of_a_uniform_guess_is_the_vocabulary() {
    let mut d = draw_weights();
    d.out = vec![0.0; VOCAB * EMBD];
    let mut m = load(build(true, &d));
    let p = perplexity(&cpu(), &mut m, &[1, 2, 3]).unwrap();
    assert!((p - VOCAB as f32).abs() < 1e-3, "got {p}");
}

#[test]
fn draws_follow_the_shares() {
    // exp of the logits: 1, 2, 4, 1 of 8.
    let logits = [0.0, 2.0f32.ln(), 4.0f32.ln(), 0.0];
    let k = cpu();
    let at = |draw: f32| sample(&k, &logits, 1.0, None, None, draw);
    // Best first: 2 has a half, 1 a quarter, 0 and 3 an eighth each.
    assert_eq!(at(0.0), 2);
    assert_eq!(at(0.49), 2);
    assert_eq!(at(0.51), 1);
    assert_eq!(at(0.74), 1);
    assert_eq!(at(0.76), 0);
    assert_eq!(at(0.88), 3);
    assert_eq!(at(0.999), 3);
    // Greedy: no temperature, no candidates, or one.
    assert_eq!(sample(&k, &logits, 0.0, None, None, 0.99), 2);
    assert_eq!(sample(&k, &logits, 1.0, Some(0), None, 0.99), 2);
    assert_eq!(sample(&k, &logits, 1.0, Some(1), None, 0.99), 2);
    assert_eq!(sample(&k, &logits, 1.0, Some(2), None, 0.99), 1);
    // The nucleus: one candidate makes a half, two make three quarters.
    assert_eq!(sample(&k, &logits, 1.0, None, Some(0.4), 0.99), 2);
    assert_eq!(sample(&k, &logits, 1.0, None, Some(0.7), 0.99), 1);
    assert_eq!(sample(&k, &logits, 1.0, None, Some(0.0), 0.99), 2);
    assert_eq!(sample(&k, &logits, 1.0, None, Some(2.0), 0.99), 3);
    // A high temperature levels the shares.
    assert_eq!(sample(&k, &logits, 1e6, None, None, 0.26), 1);
    assert_eq!(sample(&k, &logits, 1e6, None, None, 0.24), 2);
}
