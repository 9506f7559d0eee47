//! Hyperparameters, weights, the plan of the forward pass, and the cache.

use talos::gguf::dtype::{Element, Scale};
use talos::gguf::{GgmlType, GgufError, GgufFile, Vector};
use talos::kv_cache::KvCache;
use talos::math::gpu::{quant_kernel, threadgroup_width, Residency};
use talos::model::config::{Config, ConfigError};
use talos::model::llama::{Model, ModelError};
use talos::model::plan::{buffer_len, plan, Buf, Mat, Norm, Op};
use talos::model::weights::{Matrix, WeightError, Weights};
use talos::tokenizer::TokenizerError;

fn put_string(buf: &mut Vec<u8>, s: &str) {
    buf.extend_from_slice(&(s.len() as u64).to_le_bytes());
    buf.extend_from_slice(s.as_bytes());
}

fn kv_u32(key: &str, v: u32) -> Vec<u8> {
    let mut b = Vec::new();
    put_string(&mut b, key);
    b.extend_from_slice(&4u32.to_le_bytes());
    b.extend_from_slice(&v.to_le_bytes());
    b
}

fn kv_f32(key: &str, v: f32) -> Vec<u8> {
    let mut b = Vec::new();
    put_string(&mut b, key);
    b.extend_from_slice(&6u32.to_le_bytes());
    b.extend_from_slice(&v.to_le_bytes());
    b
}

fn kv_bool(key: &str, v: bool) -> Vec<u8> {
    let mut b = Vec::new();
    put_string(&mut b, key);
    b.extend_from_slice(&7u32.to_le_bytes());
    b.push(v as u8);
    b
}

fn kv_str(key: &str, v: &str) -> Vec<u8> {
    let mut b = Vec::new();
    put_string(&mut b, key);
    b.extend_from_slice(&8u32.to_le_bytes());
    put_string(&mut b, v);
    b
}

fn kv_strs(key: &str, v: &[&str]) -> Vec<u8> {
    let mut b = Vec::new();
    put_string(&mut b, key);
    b.extend_from_slice(&9u32.to_le_bytes());
    b.extend_from_slice(&8u32.to_le_bytes());
    b.extend_from_slice(&(v.len() as u64).to_le_bytes());
    for s in v {
        put_string(&mut b, s);
    }
    b
}

fn kv_nums(key: &str, tag: u32, v: &[u32]) -> Vec<u8> {
    let mut b = Vec::new();
    put_string(&mut b, key);
    b.extend_from_slice(&9u32.to_le_bytes());
    b.extend_from_slice(&tag.to_le_bytes());
    b.extend_from_slice(&(v.len() as u64).to_le_bytes());
    for x in v {
        b.extend_from_slice(&x.to_le_bytes());
    }
    b
}

/// A file with F32 tensors of the given sizes, numbered consecutively.
fn file(kv: &[Vec<u8>], tensors: &[(String, Vec<u64>)]) -> Vec<u8> {
    let mut buf = b"GGUF".to_vec();
    buf.extend_from_slice(&3u32.to_le_bytes());
    buf.extend_from_slice(&(tensors.len() as u64).to_le_bytes());
    buf.extend_from_slice(&(kv.len() as u64).to_le_bytes());
    for e in kv {
        buf.extend_from_slice(e);
    }
    let mut data: Vec<u8> = Vec::new();
    let mut number = 0.0f32;
    for (name, dims) in tensors {
        put_string(&mut buf, name);
        buf.extend_from_slice(&(dims.len() as u32).to_le_bytes());
        for d in dims {
            buf.extend_from_slice(&d.to_le_bytes());
        }
        buf.extend_from_slice(&0u32.to_le_bytes());
        while data.len() % 32 != 0 {
            data.push(0);
        }
        buf.extend_from_slice(&(data.len() as u64).to_le_bytes());
        for _ in 0..dims.iter().product::<u64>() {
            data.extend_from_slice(&number.to_le_bytes());
            number += 1.0;
        }
    }
    while buf.len() % 32 != 0 {
        buf.push(0);
    }
    buf.extend_from_slice(&data);
    buf
}

const TOKENS: [&str; 3] = ["a", "b", "c"];

/// Two layers, four heads sharing two kv heads, heads of two numbers.
fn metadata() -> Vec<Vec<u8>> {
    vec![
        kv_str("general.architecture", "llama"),
        kv_strs("tokenizer.ggml.tokens", &TOKENS),
        kv_strs("tokenizer.ggml.merges", &[]),
        kv_u32("tokenizer.ggml.unknown_token_id", 0),
        kv_u32("tokenizer.ggml.bos_token_id", 1),
        kv_u32("tokenizer.ggml.eos_token_id", 2),
        kv_u32("llama.block_count", 2),
        kv_u32("llama.attention.head_count", 4),
        kv_u32("llama.attention.head_count_kv", 2),
        kv_u32("llama.embedding_length", 8),
        kv_u32("llama.feed_forward_length", 6),
        kv_u32("llama.context_length", 16),
        kv_u32("llama.rope.dimension_count", 2),
    ]
}

fn tensor_list() -> Vec<(String, Vec<u64>)> {
    let mut v: Vec<(String, Vec<u64>)> = vec![
        ("token_embd.weight".to_string(), vec![8, 3]),
        ("output_norm.weight".to_string(), vec![8]),
        ("output.weight".to_string(), vec![8, 3]),
    ];
    for l in 0..2 {
        for (part, dims) in [
            ("attn_norm", vec![8]),
            ("attn_q", vec![8, 8]),
            ("attn_k", vec![8, 4]),
            ("attn_v", vec![8, 4]),
            ("attn_output", vec![8, 8]),
            ("ffn_norm", vec![8]),
            ("ffn_gate", vec![8, 6]),
            ("ffn_up", vec![8, 6]),
            ("ffn_down", vec![6, 8]),
        ] {
            v.push((format!("blk.{l}.{part}.weight"), dims));
        }
    }
    v
}

fn config() -> Config {
    Config {
        n_layer: 2,
        n_head: 4,
        n_head_kv: 2,
        n_embd: 8,
        n_ff: 6,
        context_length: 16,
        vocab_size: 3,
        rms_eps: 1e-5f32.to_bits(),
        rope_dim: 2,
        rope_freq_base: 10000.0f32.to_bits(),
    }
}

fn without(key: &str) -> GgufFile<'static> {
    let mut needle = Vec::new();
    put_string(&mut needle, key);
    let kv: Vec<Vec<u8>> = metadata().into_iter().filter(|e| !e.starts_with(&needle)).collect();
    GgufFile::from_bytes(file(&kv, &[])).unwrap()
}

#[test]
fn config_is_read() {
    let g = GgufFile::from_bytes(file(&metadata(), &[])).unwrap();
    // The epsilon and the frequency base have defaults.
    assert_eq!(Config::from_gguf(&g), Ok(config()));
    let mut kv = metadata();
    kv.push(kv_f32("llama.attention.layer_norm_rms_epsilon", 1e-6));
    kv.push(kv_f32("llama.rope.freq_base", 500000.0));
    let g = GgufFile::from_bytes(file(&kv, &[])).unwrap();
    let c = Config::from_gguf(&g).unwrap();
    assert_eq!(c.rms_eps, 1e-6f32.to_bits());
    assert_eq!(c.rope_freq_base, 500000.0f32.to_bits());
}

#[test]
fn config_errors() {
    for (key, want) in [
        ("general.architecture", ConfigError::UnsupportedArchitecture),
        ("tokenizer.ggml.tokens", ConfigError::MissingTokens),
        ("llama.block_count", ConfigError::MissingBlockCount),
        ("llama.attention.head_count", ConfigError::MissingHeadCount),
        ("llama.attention.head_count_kv", ConfigError::MissingHeadCountKv),
        ("llama.embedding_length", ConfigError::MissingEmbeddingLength),
        ("llama.feed_forward_length", ConfigError::MissingFeedForwardLength),
        ("llama.context_length", ConfigError::MissingContextLength),
        ("llama.rope.dimension_count", ConfigError::MissingRopeDimensionCount),
    ] {
        assert_eq!(Config::from_gguf(&without(key)), Err(want), "{key}");
    }
    let mut kv = metadata();
    kv[0] = kv_str("general.architecture", "gpt2");
    let g = GgufFile::from_bytes(file(&kv, &[])).unwrap();
    assert_eq!(Config::from_gguf(&g), Err(ConfigError::UnsupportedArchitecture));
}

#[test]
fn head_geometry() {
    let c = config();
    assert_eq!(c.head_dim(), 2);
    assert_eq!(c.kv_dim(), 4);
    assert_eq!(c.group(), 2);
    let shared: Vec<usize> = (0..4).map(|h| c.kv_head(h)).collect();
    assert_eq!(shared, vec![0, 0, 1, 1]);
    // As many kv heads as query heads: each has its own.
    let mha = Config { n_head_kv: 4, ..c };
    let own: Vec<usize> = (0..4).map(|h| mha.kv_head(h)).collect();
    assert_eq!(own, vec![0, 1, 2, 3]);
}

#[test]
fn shared_heads_read_what_copies_would() {
    let c = config();
    let row: Vec<u32> = vec![10, 11, 20, 21];
    let mut shared: KvCache<u32> = KvCache::new(1, c.n_head_kv, c.head_dim(), 4);
    shared.append(0, &row, &row);
    let mut copies: KvCache<u32> = KvCache::new(1, c.n_head, c.head_dim(), 4);
    let repeated = [10, 11, 10, 11, 20, 21, 20, 21];
    copies.append(0, &repeated, &repeated);
    for h in 0..c.n_head {
        assert_eq!(shared.key(0, 0, c.kv_head(h)), copies.key(0, 0, h));
        assert_eq!(shared.value(0, 0, c.kv_head(h)), copies.value(0, 0, h));
    }
}

#[test]
fn model_loads() {
    let g = GgufFile::from_bytes(file(&metadata(), &tensor_list())).unwrap();
    let mut m: Model<f32> = Model::load(g).unwrap_or_else(|e| panic!("{e:?}"));
    assert_eq!(m.cfg, config());
    assert_eq!(m.tokenizer.vocab_size(), 3);
    assert_eq!(m.kv.len(), 0);
    assert_eq!(m.kv.context(), 16);
    m.kv.append(0, &[1.0, 2.0, 3.0, 4.0], &[5.0, 6.0, 7.0, 8.0]);
    assert_eq!(m.kv.len(), 1);
    m.reset();
    assert!(m.kv.is_empty());
    m.cap_context(100);
    assert_eq!(m.cfg.context_length, 16);
    m.cap_context(5);
    assert_eq!(m.cfg.context_length, 5);
    assert!(m.weights().is_ok());
}

#[test]
fn model_errors() {
    let load = |g: GgufFile<'static>| Model::<f32>::load(g).err();
    assert_eq!(
        load(without("llama.block_count")),
        Some(ModelError::Config(ConfigError::MissingBlockCount))
    );
    assert_eq!(
        load(without("tokenizer.ggml.merges")),
        Some(ModelError::Tokenizer(TokenizerError::MissingMerges))
    );
    for (heads, kv_heads) in [(4u32, 3u32), (4, 0), (0, 2), (2, 4)] {
        let mut kv = metadata();
        kv[7] = kv_u32("llama.attention.head_count", heads);
        kv[8] = kv_u32("llama.attention.head_count_kv", kv_heads);
        let g = GgufFile::from_bytes(file(&kv, &[])).unwrap();
        assert_eq!(
            load(g),
            Some(ModelError::Heads { n_head: heads as usize, n_head_kv: kv_heads as usize })
        );
    }
}

#[test]
fn tokenizer_metadata_errors() {
    let load = |g: GgufFile<'static>| Model::<f32>::load(g).err();
    for (key, want) in [
        ("tokenizer.ggml.merges", TokenizerError::MissingMerges),
        ("tokenizer.ggml.unknown_token_id", TokenizerError::MissingUnknownId),
        ("tokenizer.ggml.bos_token_id", TokenizerError::MissingBosId),
        ("tokenizer.ggml.eos_token_id", TokenizerError::MissingEosId),
    ] {
        assert_eq!(load(without(key)), Some(ModelError::Tokenizer(want)), "{key}");
    }
}

#[test]
fn sentencepiece_models_load_by_kind() {
    let spm = |extra: &[Vec<u8>]| {
        let mut kv = metadata();
        kv.push(kv_str("tokenizer.ggml.model", "llama"));
        kv.extend_from_slice(extra);
        GgufFile::from_bytes(file(&kv, &[])).unwrap()
    };
    let load = |g: GgufFile<'static>| Model::<f32>::load(g);
    let scores = kv_nums("tokenizer.ggml.scores", 6, &[0, 0, 0]);
    let types = kv_nums("tokenizer.ggml.token_type", 5, &[1, 1, 3]);
    assert_eq!(
        load(spm(&[])).err(),
        Some(ModelError::Tokenizer(TokenizerError::MissingScores))
    );
    assert_eq!(
        load(spm(&[scores.clone()])).err(),
        Some(ModelError::Tokenizer(TokenizerError::MissingTokenTypes))
    );
    let short = kv_nums("tokenizer.ggml.scores", 6, &[0]);
    assert_eq!(
        load(spm(&[short, types.clone()])).err(),
        Some(ModelError::Tokenizer(TokenizerError::LengthsDisagree {
            tokens: 3,
            scores: 1,
            types: 3
        }))
    );
    let m = load(spm(&[scores.clone(), types.clone()])).unwrap_or_else(|e| panic!("{e:?}"));
    assert!(!m.tokenizer.add_bos());
    assert_eq!(m.tokenizer.decode(&[0, 2, 1]), "ab");
    let bos = kv_bool("tokenizer.ggml.add_bos_token", true);
    let m = load(spm(&[scores, types, bos])).unwrap_or_else(|e| panic!("{e:?}"));
    assert!(m.tokenizer.add_bos());
}

#[test]
fn weights_bind_by_name() {
    let g = GgufFile::from_bytes(file(&metadata(), &tensor_list())).unwrap();
    let w = Weights::from_gguf(&g, &config()).unwrap_or_else(|e| panic!("{e:?}"));
    assert_eq!(w.layers.len(), 2);
    assert_eq!((w.token_embd.rows(), w.token_embd.cols()), (3, 8));
    assert_eq!((w.layers[1].attn_k.rows(), w.layers[1].attn_k.cols()), (4, 8));
    assert_eq!((w.layers[0].ffn_down.rows(), w.layers[0].ffn_down.cols()), (8, 6));
    // The tensors are numbered consecutively: row 2 of the embedding starts at
    // 16, the norm behind the embedding at 24.
    let mut out = vec![Element { scale: Scale::Single(0), sub: 0, quant: 0 }; 8];
    w.token_embd.dequant_row(2, &mut out);
    let want: Vec<Element> = (16..24)
        .map(|x| Element { scale: Scale::Single((x as f32).to_bits()), sub: 1, quant: 1 })
        .collect();
    assert_eq!(out, want);
    assert_eq!(w.output_norm.len(), 8);
    assert_eq!(f32::from_bits(w.output_norm.get(3)), 27.0);
    assert_eq!(w.output_norm.bytes()[..4], 24.0f32.to_le_bytes());
    assert_eq!(w.token_embd.row(1), &w.token_embd.bytes()[32..64]);
    assert_eq!(w.token_embd.dtype(), GgmlType::F32);
}

#[test]
fn weight_errors() {
    let list = tensor_list();
    // Each tensor in turn is missing.
    for i in 0..list.len() {
        let mut some = list.clone();
        some.remove(i);
        let g = GgufFile::from_bytes(file(&metadata(), &some)).unwrap();
        let r = Weights::from_gguf(&g, &config()).err();
        assert_eq!(r, Some(WeightError::Tensor(GgufError::NoSuchTensor)), "{}", list[i].0);
        // Or has another size.
        let mut other = list.clone();
        other[i].1 = vec![5];
        let g = GgufFile::from_bytes(file(&metadata(), &other)).unwrap();
        let r = Weights::from_gguf(&g, &config()).err();
        assert_eq!(r, Some(WeightError::Shape), "{}", list[i].0);
    }
    let g = GgufFile::from_bytes(file(&metadata(), &list)).unwrap();
    assert_eq!(Matrix::bind(&g, "token_embd.weight", 4, 8).err(), Some(WeightError::Shape));
    assert_eq!(Vector::bind(&g, "output_norm.weight", 7).err(), Some(WeightError::Shape));
    assert!(Matrix::bind(&g, "token_embd.weight", 8, 3).is_ok());
}

#[test]
fn plan_runs_the_layers_in_order() {
    let c = config();
    let ops = plan(&c);
    assert_eq!(ops.len(), 3 + 16 * 2);
    assert_eq!(ops[0], Op::Embed);
    assert_eq!(ops[1], Op::RmsNorm { norm: Norm::Attn(0), src: Buf::X, dst: Buf::Normed });
    assert_eq!(ops[5], Op::Rope { buf: Buf::Q, heads: 4 });
    assert_eq!(ops[6], Op::Rope { buf: Buf::K, heads: 2 });
    assert_eq!(ops[7], Op::Append { layer: 0 });
    assert_eq!(ops[8], Op::Attend { layer: 0 });
    assert_eq!(ops[23], Op::Append { layer: 1 });
    assert_eq!(ops[24], Op::Attend { layer: 1 });
    assert_eq!(ops[34], Op::MatVec { mat: Mat::Output, src: Buf::Last, dst: Buf::Logits });
    assert_eq!(plan(&Config { n_layer: 0, ..c }).len(), 3);
    assert_eq!(buffer_len(&c, Buf::X), 8);
    assert_eq!(buffer_len(&c, Buf::K), 4);
    assert_eq!(buffer_len(&c, Buf::Glu), 6);
    assert_eq!(buffer_len(&c, Buf::Logits), 3);
}

#[test]
fn cache_rows_follow_each_other() {
    let mut kv: KvCache<i32> = KvCache::new(2, 2, 2, 8);
    assert!(kv.is_empty());
    kv.append(0, &[1, 2, 3, 4], &[5, 6, 7, 8]);
    kv.append(0, &[9, 10, 11, 12], &[13, 14, 15, 16]);
    kv.append(1, &[0, 0, 0, 1], &[0, 0, 0, 2]);
    assert_eq!(kv.len(), 2);
    assert_eq!(kv.keys(0), &[1, 2, 3, 4, 9, 10, 11, 12]);
    assert_eq!(kv.values(0), &[5, 6, 7, 8, 13, 14, 15, 16]);
    assert_eq!(kv.keys(1), &[0, 0, 0, 1]);
    assert_eq!(kv.key(0, 1, 0), &[9, 10]);
    assert_eq!(kv.key(0, 1, 1), &[11, 12]);
    assert_eq!(kv.value(0, 0, 1), &[7, 8]);
    kv.clear();
    assert!(kv.is_empty());
    assert_eq!(kv.keys(0), &[] as &[i32]);
    assert_eq!(kv.values(1), &[] as &[i32]);
    // Rows of nothing count as none.
    let empty: KvCache<i32> = KvCache::new(0, 0, 4, 8);
    assert_eq!(empty.len(), 0);
}

#[test]
fn resident_weights_are_uploaded_once() {
    let mut r = Residency::new();
    assert!(!r.ask("blk.0.attn_q.weight", 64));
    assert!(r.ask("blk.0.attn_q.weight", 64));
    assert!(!r.ask("blk.0.attn_k.weight", 64));
    assert!(r.ask("blk.0.attn_q.weight", 64));
    // Another size under the same name is uploaded again.
    assert!(!r.ask("blk.0.attn_q.weight", 65));
    assert!(r.ask("blk.0.attn_q.weight", 65));
    assert!(!r.ask("blk.0.attn_q.weight", 64));
}

#[test]
fn gpu_launches() {
    assert_eq!(quant_kernel(GgmlType::Q8_0), "matvec_q8_0");
    assert_eq!(quant_kernel(GgmlType::Q4_0), "matvec_q4_0");
    assert_eq!(threadgroup_width(1024, 10), 10);
    assert_eq!(threadgroup_width(1024, 5000), 1024);
    assert_eq!(threadgroup_width(1024, 0), 1);
    assert_eq!(threadgroup_width(0, 7), 1);
}
