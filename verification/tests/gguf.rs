//! Reading files: metadata, tensor index, tensor data, and every error.

use half::f16;
use talos::gguf::dtype::{Element, Scale, QK, QK_K};
use talos::gguf::{GgmlType, GgufError, GgufFile, MetaValue, TensorInfo, Vector};

const T_UINT32: u32 = 4;
const T_INT32: u32 = 5;
const T_FLOAT32: u32 = 6;
const T_BOOL: u32 = 7;
const T_STRING: u32 = 8;
const T_ARRAY: u32 = 9;
const GGML_TYPE_F32: u32 = 0;
const ALIGN: usize = 32;

fn put_string(buf: &mut Vec<u8>, s: &str) {
    buf.extend_from_slice(&(s.len() as u64).to_le_bytes());
    buf.extend_from_slice(s.as_bytes());
}

fn build_gguf() -> Vec<u8> {
    let t1: &[f32] = &[1.0, 2.0, 3.0, 4.0, 5.0, 6.0];
    let t2: &[f32] = &[-1.5, 0.0, 42.25];

    let mut buf = Vec::new();
    buf.extend_from_slice(b"GGUF");
    buf.extend_from_slice(&3u32.to_le_bytes());
    buf.extend_from_slice(&2u64.to_le_bytes());
    buf.extend_from_slice(&5u64.to_le_bytes());

    put_string(&mut buf, "answer.u32");
    buf.extend_from_slice(&T_UINT32.to_le_bytes());
    buf.extend_from_slice(&42u32.to_le_bytes());

    put_string(&mut buf, "scale.f32");
    buf.extend_from_slice(&T_FLOAT32.to_le_bytes());
    buf.extend_from_slice(&2.5f32.to_le_bytes());

    put_string(&mut buf, "flag.bool");
    buf.extend_from_slice(&T_BOOL.to_le_bytes());
    buf.push(1);

    put_string(&mut buf, "names.arr");
    buf.extend_from_slice(&T_ARRAY.to_le_bytes());
    buf.extend_from_slice(&T_STRING.to_le_bytes());
    buf.extend_from_slice(&3u64.to_le_bytes());
    for s in ["alpha", "beta", "gamma"] {
        put_string(&mut buf, s);
    }

    put_string(&mut buf, "types.arr");
    buf.extend_from_slice(&T_ARRAY.to_le_bytes());
    buf.extend_from_slice(&T_INT32.to_le_bytes());
    buf.extend_from_slice(&3u64.to_le_bytes());
    for x in [-7i32, 0, 9] {
        buf.extend_from_slice(&x.to_le_bytes());
    }

    let off1 = 0usize;
    let off2 = (off1 + t1.len() * 4).div_ceil(ALIGN) * ALIGN;

    put_string(&mut buf, "tensor.one");
    buf.extend_from_slice(&2u32.to_le_bytes());
    buf.extend_from_slice(&3u64.to_le_bytes());
    buf.extend_from_slice(&2u64.to_le_bytes());
    buf.extend_from_slice(&GGML_TYPE_F32.to_le_bytes());
    buf.extend_from_slice(&(off1 as u64).to_le_bytes());

    put_string(&mut buf, "tensor.two");
    buf.extend_from_slice(&1u32.to_le_bytes());
    buf.extend_from_slice(&3u64.to_le_bytes());
    buf.extend_from_slice(&GGML_TYPE_F32.to_le_bytes());
    buf.extend_from_slice(&(off2 as u64).to_le_bytes());

    while buf.len() % ALIGN != 0 {
        buf.push(0);
    }
    let data_start = buf.len();

    for (off, data) in [(off1, t1), (off2, t2)] {
        let target = data_start + off;
        while buf.len() < target {
            buf.push(0);
        }
        for &x in data {
            buf.extend_from_slice(&x.to_le_bytes());
        }
    }

    buf
}

fn bits(v: Vector<'_>) -> Vec<u32> {
    (0..v.len()).map(|i| v.get(i)).collect()
}

fn floats(v: Vector<'_>) -> Vec<f32> {
    bits(v).into_iter().map(f32::from_bits).collect()
}

#[test]
fn round_trips_metadata_and_tensors() {
    let bytes = build_gguf();
    let g = GgufFile::from_bytes(bytes).unwrap();

    assert_eq!(g.get_u32("answer.u32"), Some(42));
    assert_eq!(g.get_f32("scale.f32").map(f32::from_bits), Some(2.5));
    assert_eq!(
        g.get_arr_str("names.arr"),
        Some(["alpha".to_string(), "beta".to_string(), "gamma".to_string()].as_slice())
    );
    assert_eq!(g.get_arr_i32("types.arr"), Some([-7i32, 0, 9].as_slice()));
    assert!(matches!(g.metadata("flag.bool"), Some(MetaValue::Bool(true))));
    assert_eq!(g.get_u32("scale.f32"), None);
    assert_eq!(g.get_str("missing"), None);

    let tensors = g.tensors();
    assert_eq!(tensors.len(), 2);
    assert_eq!(tensors[0].name, "tensor.one");
    assert_eq!(tensors[0].dims, vec![3, 2]);
    assert_eq!(tensors[0].dtype, GgmlType::F32);
    assert_eq!(tensors[0].elem_count(), 6);
    assert_eq!(tensors[1].name, "tensor.two");
    assert_eq!(tensors[1].dims, vec![3]);

    assert!(g.tensor_info("nope").is_none());

    assert_eq!(floats(g.tensor_f32("tensor.one").unwrap()), &[1.0, 2.0, 3.0, 4.0, 5.0, 6.0]);
    assert_eq!(floats(g.tensor_f32("tensor.two").unwrap()), &[-1.5, 0.0, 42.25]);
    assert!(g.tensor_f32("missing").is_err());
}

#[test]
fn borrowed_bytes_read_the_same() {
    let bytes = build_gguf();
    let g = GgufFile::from_slice(&bytes).unwrap();
    assert_eq!(g.get_u32("answer.u32"), Some(42));
    let (raw, dtype) = g.tensor_raw("tensor.two").unwrap();
    assert_eq!(dtype, GgmlType::F32);
    assert_eq!(raw.len(), 12);
    assert_eq!(&raw[..4], &(-1.5f32).to_le_bytes());
}

/// A file with the given entries and tensors behind the header.
fn file(kv: &[Vec<u8>], tensors: &[Vec<u8>], data: &[u8]) -> Vec<u8> {
    let mut buf = b"GGUF".to_vec();
    buf.extend_from_slice(&3u32.to_le_bytes());
    buf.extend_from_slice(&(tensors.len() as u64).to_le_bytes());
    buf.extend_from_slice(&(kv.len() as u64).to_le_bytes());
    for e in kv {
        buf.extend_from_slice(e);
    }
    for t in tensors {
        buf.extend_from_slice(t);
    }
    while buf.len() % ALIGN != 0 {
        buf.push(0);
    }
    buf.extend_from_slice(data);
    buf
}

fn entry(key: &str, tag: u32, value: &[u8]) -> Vec<u8> {
    let mut e = Vec::new();
    put_string(&mut e, key);
    e.extend_from_slice(&tag.to_le_bytes());
    e.extend_from_slice(value);
    e
}

fn tensor(name: &str, dims: &[u64], tag: u32, offset: u64) -> Vec<u8> {
    let mut t = Vec::new();
    put_string(&mut t, name);
    t.extend_from_slice(&(dims.len() as u32).to_le_bytes());
    for d in dims {
        t.extend_from_slice(&d.to_le_bytes());
    }
    t.extend_from_slice(&tag.to_le_bytes());
    t.extend_from_slice(&offset.to_le_bytes());
    t
}

fn error_of(bytes: Vec<u8>) -> Option<GgufError> {
    GgufFile::from_bytes(bytes).err()
}

#[test]
fn an_empty_index_is_a_file() {
    let g = GgufFile::from_bytes(file(&[], &[], &[])).unwrap();
    assert_eq!(g.tensors().len(), 0);
    assert!(g.metadata("x").is_none());
}

#[test]
fn header_errors() {
    assert_eq!(error_of(Vec::new()), Some(GgufError::UnexpectedEof));
    assert_eq!(error_of(b"GGU".to_vec()), Some(GgufError::UnexpectedEof));
    assert_eq!(error_of(b"GGML\x03\0\0\0".to_vec()), Some(GgufError::BadMagic));
    let mut old = file(&[], &[], &[]);
    old[4] = 2;
    assert_eq!(error_of(old), Some(GgufError::UnsupportedVersion(2)));
    let mut cut = file(&[], &[], &[]);
    cut.truncate(20);
    assert_eq!(error_of(cut), Some(GgufError::UnexpectedEof));
}

#[test]
fn metadata_errors() {
    let bad = entry("k", 99, &[0; 8]);
    assert_eq!(error_of(file(&[bad], &[], &[])), Some(GgufError::UnsupportedValueType(99)));
    let mut inner = 77u32.to_le_bytes().to_vec();
    inner.extend_from_slice(&1u64.to_le_bytes());
    let bad = entry("k", T_ARRAY, &inner);
    assert_eq!(error_of(file(&[bad], &[], &[])), Some(GgufError::UnsupportedArrayType(77)));
    let mut text = 2u64.to_le_bytes().to_vec();
    text.extend_from_slice(&[0xC3, 0x28]);
    let bad = entry("k", T_STRING, &text);
    assert_eq!(error_of(file(&[bad], &[], &[])), Some(GgufError::InvalidUtf8));
    let bad = entry("k", T_STRING, &u64::MAX.to_le_bytes());
    assert_eq!(error_of(file(&[bad], &[], &[])), Some(GgufError::OffsetOverflow));
    let bad = entry("k", T_STRING, &1000u64.to_le_bytes());
    assert_eq!(error_of(file(&[bad], &[], &[])), Some(GgufError::UnexpectedEof));
}

#[test]
fn index_errors() {
    let t = tensor("t", &[4], 1, 0);
    assert_eq!(error_of(file(&[], &[t], &[])), Some(GgufError::UnsupportedTensorType(1)));
    // The file ends before the data section would start.
    let mut cut = file(&[], &[tensor("t", &[0], 0, 0)], &[]);
    let len = cut.len();
    assert_eq!(len % ALIGN, 0);
    cut.truncate(len - 1);
    assert_eq!(error_of(cut), Some(GgufError::DataStartPastEnd));
}

#[test]
fn tensor_errors() {
    let g = GgufFile::from_bytes(file(
        &[],
        &[
            tensor("partial", &[33], 8, 0),
            tensor("huge", &[u64::MAX, 2], 0, 0),
            tensor("far", &[1], 0, u64::MAX),
            tensor("long", &[100], 0, 0),
            tensor("q8", &[32], 8, 0),
        ],
        &[0; 64],
    ))
    .unwrap();
    assert_eq!(g.tensor_raw("nope").err(), Some(GgufError::NoSuchTensor));
    assert_eq!(g.tensor_f32("nope").err(), Some(GgufError::NoSuchTensor));
    assert_eq!(g.tensor_raw("partial").err(), Some(GgufError::PartialBlock));
    assert_eq!(g.tensor_raw("huge").err(), Some(GgufError::TensorRangeOverflow));
    assert_eq!(g.tensor_raw("far").err(), Some(GgufError::TensorRangeOverflow));
    assert_eq!(g.tensor_raw("long").err(), Some(GgufError::TensorPastEnd));
    assert_eq!(g.tensor_f32("q8").err(), Some(GgufError::NotF32(GgmlType::Q8_0)));
    assert_eq!(g.tensor_raw("q8").unwrap().0.len(), 34);
}

#[test]
fn later_entries_and_tensors_win() {
    let g = GgufFile::from_bytes(file(
        &[
            entry("k", T_UINT32, &1u32.to_le_bytes()),
            entry("k", T_UINT32, &2u32.to_le_bytes()),
        ],
        &[tensor("t", &[1], 0, 0), tensor("t", &[1], 0, 4)],
        &[1, 0, 0, 0, 2, 0, 0, 0],
    ))
    .unwrap();
    assert_eq!(g.get_u32("k"), Some(2));
    assert_eq!(g.tensors().len(), 2);
    assert_eq!(bits(g.tensor_f32("t").unwrap()), vec![2]);
}

#[test]
fn float_arrays_and_texts_are_read() {
    let mut arr = T_FLOAT32.to_le_bytes().to_vec();
    arr.extend_from_slice(&2u64.to_le_bytes());
    arr.extend_from_slice(&1.5f32.to_le_bytes());
    arr.extend_from_slice(&(-2.0f32).to_le_bytes());
    let mut text = Vec::new();
    put_string(&mut text, "gpt2 é");
    let g = GgufFile::from_bytes(file(
        &[
            entry("f", T_ARRAY, &arr),
            entry("s", T_STRING, &text),
            entry("b", T_BOOL, &[0]),
        ],
        &[],
        &[],
    ))
    .unwrap();
    assert_eq!(g.get_arr_f32("f").unwrap(), [1.5f32.to_bits(), (-2.0f32).to_bits()]);
    assert_eq!(g.get_str("s"), Some("gpt2 é"));
    assert!(matches!(g.metadata("b"), Some(MetaValue::Bool(false))));
    assert_eq!(g.get_arr_str("f"), None);
    assert_eq!(g.get_arr_i32("f"), None);
    assert_eq!(g.get_arr_f32("s"), None);
}

#[test]
fn element_counts() {
    let t = |dims: Vec<u64>| TensorInfo {
        name: "t".to_string(),
        dims,
        dtype: GgmlType::F32,
        offset: 0,
    };
    assert_eq!(t(vec![]).elem_count(), 1);
    assert_eq!(t(vec![7, 3, 2]).elem_count(), 42);
    assert_eq!(t(vec![u64::MAX, 2]).checked_elem_count(), None);
    assert_eq!(t(vec![u64::MAX, 1]).checked_elem_count(), Some(u64::MAX));
}

#[test]
fn type_tags_and_block_sizes() {
    assert_eq!(GgmlType::from_u32(0), Some(GgmlType::F32));
    assert_eq!(GgmlType::from_u32(2), Some(GgmlType::Q4_0));
    assert_eq!(GgmlType::from_u32(8), Some(GgmlType::Q8_0));
    assert_eq!(GgmlType::from_u32(14), Some(GgmlType::Q6K));
    assert_eq!(GgmlType::from_u32(1), None);
    assert_eq!((GgmlType::F32.block_elems(), GgmlType::F32.block_bytes()), (1, 4));
    assert_eq!((GgmlType::Q8_0.block_elems(), GgmlType::Q8_0.block_bytes()), (32, 34));
    assert_eq!((GgmlType::Q4_0.block_elems(), GgmlType::Q4_0.block_bytes()), (32, 18));
    assert_eq!((GgmlType::Q6K.block_elems(), GgmlType::Q6K.block_bytes()), (256, 210));
}

fn value(e: &Element) -> f32 {
    let scale = match e.scale {
        Scale::Single(bits) => f32::from_bits(bits),
        Scale::Half(bits) => f16::from_bits(bits).to_f32(),
    };
    scale * e.sub as f32 * e.quant as f32
}

fn decoded(dtype: GgmlType, raw: &[u8], n: usize) -> Vec<f32> {
    let mut out = vec![Element { scale: Scale::Single(0), sub: 0, quant: 0 }; n];
    dtype.dequantize(raw, &mut out);
    out.iter().map(value).collect()
}

fn sample_block() -> Vec<f32> {
    (0..QK).map(|i| (i as f32 - 16.0) * 0.37 + 0.1).collect()
}

#[test]
fn q8_0_round_trip() {
    let x = sample_block();
    let amax = x.iter().fold(0.0f32, |m, v| m.max(v.abs()));
    let d = amax / 127.0;
    let mut raw = f16::from_f32(d).to_le_bytes().to_vec();
    for &v in &x {
        raw.push((v / d).round().clamp(-128.0, 127.0) as i8 as u8);
    }
    let out = decoded(GgmlType::Q8_0, &raw, QK);
    for (a, b) in x.iter().zip(&out) {
        assert!((a - b).abs() <= d + 1e-3, "q8 err {a} vs {b}");
    }
}

#[test]
fn q4_0_round_trip() {
    let x = sample_block();
    let max = x.iter().copied().fold(0.0f32, |m, v| if v.abs() > m.abs() { v } else { m });
    let d = max / -8.0;
    let id = if d != 0.0 { 1.0 / d } else { 0.0 };
    let mut raw = f16::from_f32(d).to_le_bytes().to_vec();
    for j in 0..QK / 2 {
        let xi0 = ((x[j] * id + 8.5) as i32).min(15) as u8;
        let xi1 = ((x[j + QK / 2] * id + 8.5) as i32).min(15) as u8;
        raw.push(xi0 | (xi1 << 4));
    }
    let out = decoded(GgmlType::Q4_0, &raw, QK);
    for (a, b) in x.iter().zip(&out) {
        assert!((a - b).abs() <= d.abs() + 1e-3, "q4 err {a} vs {b}");
    }
}

#[test]
fn f32_elements_are_exact() {
    let x = [1.0f32, -2.5, 0.0, 1.0e-30];
    let raw: Vec<u8> = x.iter().flat_map(|v| v.to_le_bytes()).collect();
    assert_eq!(decoded(GgmlType::F32, &raw, 4), x);
}

#[test]
fn quantized_elements_are_exact() {
    let one = f16::from_f32(1.0).to_le_bytes();
    // Q8_0: signed bytes.
    let mut raw = one.to_vec();
    raw.extend((0..32).map(|i| (i as i8 - 16) as u8));
    let want: Vec<f32> = (0..32).map(|i| i as f32 - 16.0).collect();
    assert_eq!(decoded(GgmlType::Q8_0, &raw, 32), want);
    // Q4_0: the low nibbles are the first half, the high ones the second.
    let mut raw = one.to_vec();
    raw.extend((0..16u8).map(|i| i | ((15 - i) << 4)));
    let mut want: Vec<f32> = (0..16).map(|i| i as f32 - 8.0).collect();
    want.extend((0..16).map(|i| 7.0 - i as f32));
    assert_eq!(decoded(GgmlType::Q4_0, &raw, 32), want);
    // Two blocks follow each other.
    let mut two = raw.clone();
    two.extend_from_slice(&raw);
    let out = decoded(GgmlType::Q4_0, &two, 64);
    assert_eq!(out[..32], out[32..]);
}

#[test]
fn q6k_elements_follow_the_packing() {
    let mut b = vec![0u8; 210];
    for (i, x) in b.iter_mut().enumerate().take(208) {
        *x = (i * 37 + 11) as u8;
    }
    let half = f16::from_f32(0.5).to_le_bytes();
    b[208] = half[0];
    b[209] = half[1];
    let d = 0.5f32;
    let mut want = vec![0.0f32; QK_K];
    let (ql, qh, sc) = (&b[0..128], &b[128..192], &b[192..208]);
    for n in 0..2 {
        let (ql, qh, sc) = (&ql[n * 64..], &qh[n * 32..], &sc[n * 8..]);
        let y = &mut want[n * 128..];
        for l in 0..32 {
            let is = l / 16;
            let q1 = ((ql[l] & 0xF) | ((qh[l] & 0x03) << 4)) as i32 - 32;
            let q2 = ((ql[l + 32] & 0xF) | (((qh[l] >> 2) & 0x03) << 4)) as i32 - 32;
            let q3 = ((ql[l] >> 4) | (((qh[l] >> 4) & 0x03) << 4)) as i32 - 32;
            let q4 = ((ql[l + 32] >> 4) | (((qh[l] >> 6) & 0x03) << 4)) as i32 - 32;
            y[l] = d * (sc[is] as i8) as f32 * q1 as f32;
            y[l + 32] = d * (sc[is + 2] as i8) as f32 * q2 as f32;
            y[l + 64] = d * (sc[is + 4] as i8) as f32 * q3 as f32;
            y[l + 96] = d * (sc[is + 6] as i8) as f32 * q4 as f32;
        }
    }
    assert_eq!(decoded(GgmlType::Q6K, &b, QK_K), want);
}
