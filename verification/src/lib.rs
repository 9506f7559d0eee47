//! Talos: the verified core of a minimal LLM inference engine.

pub mod bits;
pub mod cli;
pub mod decimal;
pub mod eval;
pub mod generate;
pub mod gguf;
pub mod kv_cache;
pub mod laws;
pub mod math;
pub mod model;
pub mod sample;
pub mod text;
pub mod tokenizer;
