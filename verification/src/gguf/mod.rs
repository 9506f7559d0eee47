//! GGUF v3 container: header, typed metadata key/values, tensor index, and a
//! 32-byte-aligned tensor data section.
//!
//! Byte layout, little-endian:
//!
//! - `"GGUF"` magic, `u32` version (3), `u64` tensor count, `u64` entry count
//! - for each entry: string key, `u32` value type tag, value
//! - for each tensor: string name, `u32` number of dims, that many `u64` dims,
//!   `u32` type tag, `u64` offset
//! - padding to 32 bytes, then the data section; the offset of a tensor is
//!   relative to the start of the data section
//!
//! Value type tags: UINT32 = 4, INT32 = 5, FLOAT32 = 6, BOOL = 7, STRING = 8,
//! ARRAY = 9; an array carries the tag of its elements and a `u64` count. A
//! string is a `u64` length and that many bytes of UTF-8.

pub mod dtype;
pub mod format;
pub mod layout;
pub mod reader;
pub mod vector;

pub use dtype::GgmlType;
pub use format::{GgufError, MetaValue};
pub use reader::{GgufFile, TensorInfo};
pub use vector::Vector;
