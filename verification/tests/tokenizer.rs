//! Both tokenizers, their parts, and what is promised of them as a whole.

use talos::tokenizer::alphabet::bytes_to_unicode;
use talos::tokenizer::bytes::parse_byte_token;
use talos::tokenizer::queue::{Bigram, Queue};
use talos::tokenizer::spm::{TYPE_BYTE, TYPE_CONTROL};
use talos::tokenizer::words::pretokenize;
use talos::tokenizer::{Bpe, Spm, Tokenizer, TokenizerError};

/// A byte-level BPE vocabulary that covers the whole byte alphabet, plus a
/// handful of merges.
fn make_bpe() -> Bpe {
    let byte_alphabet = bytes_to_unicode();
    let mut tokens: Vec<String> = byte_alphabet.iter().map(|c| c.to_string()).collect();

    let h = byte_alphabet[b'h' as usize];
    let e = byte_alphabet[b'e' as usize];
    let l = byte_alphabet[b'l' as usize];
    let o = byte_alphabet[b'o' as usize];

    let he = format!("{h}{e}");
    let ll = format!("{l}{l}");
    let hell = format!("{he}{ll}");
    let hello = format!("{hell}{o}");
    tokens.push(he.clone());
    tokens.push(ll.clone());
    tokens.push(hell.clone());
    tokens.push(hello.clone());

    let unk_id = tokens.len() as u32;
    tokens.push("<unk>".to_string());

    let merges = vec![
        format!("{h} {e}"),
        format!("{l} {l}"),
        format!("{he} {ll}"),
        format!("{hell} {o}"),
    ];

    Bpe::build(tokens, &merges, unk_id, unk_id, unk_id).unwrap()
}

#[test]
fn round_trip_various() {
    let tok = make_bpe();
    let cases = [
        "",
        "hello",
        "hello world",
        "héllo 世界",
        "emoji: 😀🚀✨",
        "tabs\tand\nnewlines",
        "mixed ascii / 日本語 / Ελληνικά / 🎉",
        "\u{0}\u{1}\u{7f}",
    ];
    for s in cases {
        let ids = tok.encode(s);
        let back = tok.decode(&ids);
        assert_eq!(back, s, "round trip failed for {s:?}");
    }
}

#[test]
fn merges_apply() {
    let tok = make_bpe();
    let ids = tok.encode("hello");
    assert_eq!(ids.len(), 1, "expected merges to collapse 'hello' to 1 token");
    assert_eq!(tok.decode(&ids), "hello");
}

#[test]
fn pretokenize_splits_like_cadmus() {
    assert_eq!(pretokenize("hello world"), vec!["hello", " world"]);
    assert_eq!(pretokenize(" leading"), vec![" leading"]);
    assert_eq!(pretokenize("a  b"), vec!["a", " ", " b"]);
    assert_eq!(pretokenize("a\nb c"), vec!["a\nb", " c"]);
    assert_eq!(pretokenize(""), Vec::<&str>::new());
}

#[test]
fn encode_scales_to_large_inputs() {
    let tok = make_bpe();
    let text = "hello world, hello again.\n".repeat(12_000);
    let ids = tok.encode(&text);
    assert_eq!(tok.decode(&ids), text);
}

#[test]
fn byte_alphabet_is_reversible() {
    let enc = bytes_to_unicode();
    let mut seen = std::collections::HashSet::new();
    for b in 0u8..=255 {
        assert!(seen.insert(enc[b as usize]), "duplicate alphabet char for byte {b}");
    }
    assert_eq!(seen.len(), 256);
}

fn push(
    tokens: &mut Vec<String>,
    scores: &mut Vec<u32>,
    types: &mut Vec<i32>,
    t: &str,
    s: f32,
    ty: i32,
) {
    tokens.push(t.to_string());
    scores.push(s.to_bits());
    types.push(ty);
}

/// A minimal SentencePiece vocabulary: control and unknown tokens, the ▁
/// marker and a couple of ▁-prefixed pieces, and all 256 byte tokens.
fn make_spm() -> Spm {
    let mut t: Vec<String> = Vec::new();
    let mut s: Vec<u32> = Vec::new();
    let mut y: Vec<i32> = Vec::new();
    push(&mut t, &mut s, &mut y, "<unk>", 0.0, 2);
    push(&mut t, &mut s, &mut y, "<s>", 0.0, TYPE_CONTROL);
    push(&mut t, &mut s, &mut y, "</s>", 0.0, TYPE_CONTROL);
    push(&mut t, &mut s, &mut y, "\u{2581}", -1.0, 1);
    push(&mut t, &mut s, &mut y, "\u{2581}a", -1.0, 1);
    push(&mut t, &mut s, &mut y, "\u{2581}ab", -0.5, 1);
    for b in 0u8..=255 {
        push(&mut t, &mut s, &mut y, &format!("<0x{b:02X}>"), -10.0, TYPE_BYTE);
    }
    Spm::build(t, s, y, 1, 2, 0, true).unwrap()
}

#[test]
fn spm_leading_space_and_byte_fallback() {
    let tok = make_spm();
    for s in ["hello", "héllo 世界", "emoji 😀", "tab\tnl\n"] {
        assert_eq!(tok.decode(&tok.encode(s)), format!(" {s}"), "spm round trip {s:?}");
    }
}

#[test]
fn spm_merges_highest_score_stepwise() {
    let tok = make_spm();
    let ids = tok.encode("ab");
    assert_eq!(ids, vec![tok.piece_id("\u{2581}ab").unwrap()]);
    assert_eq!(tok.decode(&ids), " ab");
}

#[test]
fn spm_control_tokens_render_empty() {
    let tok = make_spm();
    let mut ids = vec![tok.bos()];
    ids.extend(tok.encode("hi"));
    ids.push(tok.eos());
    assert_eq!(tok.decode(&ids), " hi");
}

#[test]
fn byte_alphabet_has_known_characters() {
    let enc = bytes_to_unicode();
    assert_eq!(enc[b'A' as usize], 'A');
    assert_eq!(enc[0], '\u{100}');
    assert_eq!(enc[0x20], '\u{120}');
    assert_eq!(enc[0x7F], '\u{121}');
    assert_eq!(enc[0xA0], '\u{142}');
    assert_eq!(enc[0xAD], '\u{143}');
    assert_eq!(enc[0xFF], '\u{FF}');
}

#[test]
fn bpe_ids_are_exact() {
    let tok = make_bpe();
    // "he" and "ll" are tokens 256 and 257, "hell" 258, "hello" 259.
    assert_eq!(tok.encode("hello"), vec![259]);
    assert_eq!(tok.encode("hell"), vec![258]);
    assert_eq!(tok.encode("lllo"), vec![257, b'l' as u32, b'o' as u32]);
    assert_eq!(tok.encode("a hello"), vec![b'a' as u32, 0x20, 259]);
    assert_eq!(tok.vocab_size(), 261);
    assert_eq!(tok.bos(), 260);
    assert_eq!(tok.eos(), 260);
}

#[test]
fn bpe_merges_lowest_rank_leftmost_first() {
    let tokens: Vec<String> = ["a", "b", "ab", "ba", "aba"].iter().map(|s| s.to_string()).collect();
    let merges: Vec<String> = ["b a", "a b"].iter().map(|s| s.to_string()).collect();
    let tok = Bpe::build(tokens, &merges, 0, 0, 9).unwrap();
    // "b a" ranks first although "a b" stands further left.
    assert_eq!(tok.bpe("aba"), vec!["a".to_string(), "ba".to_string()]);
    // Of two equal pairs the left one merges.
    let merges: Vec<String> = vec!["a a".to_string()];
    let tok = Bpe::build(vec!["a".to_string(), "aa".to_string()], &merges, 0, 0, 9).unwrap();
    assert_eq!(tok.bpe("aaa"), vec!["aa".to_string(), "a".to_string()]);
    assert_eq!(tok.bpe("a"), vec!["a".to_string()]);
    assert_eq!(tok.bpe(""), Vec::<String>::new());
}

#[test]
fn bpe_unknown_pieces_get_the_unknown_id() {
    let tok = Bpe::build(vec!["a".to_string()], &[], 1, 2, 7).unwrap();
    assert_eq!(tok.encode("ab"), vec![0, 7]);
    // Ids beyond the vocabulary decode to nothing.
    assert_eq!(tok.decode(&[0, 7, 0]), "aa");
}

#[test]
fn bpe_later_duplicates_win() {
    let tokens: Vec<String> = ["a", "b", "a"].iter().map(|s| s.to_string()).collect();
    let tok = Bpe::build(tokens, &[], 0, 0, 9).unwrap();
    assert_eq!(tok.encode("ab"), vec![2, 1]);
}

#[test]
fn bpe_malformed_merge_is_an_error() {
    let merges: Vec<String> = ["a b", "ab", "c"].iter().map(|s| s.to_string()).collect();
    let r = Bpe::build(Vec::new(), &merges, 0, 0, 0);
    assert!(matches!(r, Err(TokenizerError::MalformedMerge(1))));
}

#[test]
fn bpe_rule_splits_at_its_first_space() {
    // The left piece of "a b c" is "a", its right piece "b c".
    let tokens: Vec<String> = ["a", "b c", "ab c"].iter().map(|s| s.to_string()).collect();
    let tok = Bpe::build(tokens, &["a b c".to_string()], 0, 0, 9).unwrap();
    assert_eq!(tok.bpe("a b c").len(), 5);
}

#[test]
fn bpe_units_agree_with_whole_text() {
    // No rule merges across a space, so that merging the whole text at once
    // gives the same pieces.
    let tok = make_bpe();
    let enc = bytes_to_unicode();
    let mapped = |s: &str| -> String { s.bytes().map(|b| enc[b as usize]).collect() };
    let text = "hello hell lo  hello";
    let mut pieces: Vec<String> = Vec::new();
    for word in pretokenize(text) {
        pieces.extend(tok.bpe(&mapped(word)));
    }
    assert_eq!(tok.bpe(&mapped(text)), pieces);
    assert_eq!(tok.encode(text).len(), pieces.len());
}

#[test]
fn bpe_invalid_bytes_decode_lossily() {
    let tok = make_bpe();
    // A lone continuation byte is no text: it shows as a replacement character.
    assert_eq!(tok.decode(&[b'a' as u32, 0x80, b'b' as u32]), "a\u{FFFD}b");
    // The bytes of one character may come from several tokens.
    assert_eq!(tok.decode(&[0xC3, 0xA9]), "é");
}

#[test]
fn spm_encodes_empty_text_to_nothing() {
    let tok = make_spm();
    assert_eq!(tok.encode(""), Vec::<u32>::new());
    assert_eq!(tok.decode(&[]), "");
}

#[test]
fn spm_ids_are_exact() {
    let tok = make_spm();
    // ▁ is token 3, byte b is token 6 + b.
    assert_eq!(tok.encode("x"), vec![3, 6 + b'x' as u32]);
    assert_eq!(tok.encode(" a"), vec![3, 4]);
    assert_eq!(tok.encode("é"), vec![3, 6 + 0xC3, 6 + 0xA9]);
    assert_eq!(tok.vocab_size(), 262);
    assert!(tok.add_bos());
}

#[test]
fn spm_highest_score_wins_and_ties_go_left() {
    let build = |ab: f32, bc: f32| {
        let mut t: Vec<String> = Vec::new();
        let mut s: Vec<u32> = Vec::new();
        let mut y: Vec<i32> = Vec::new();
        for (piece, score) in [
            ("\u{2581}", 0.0),
            ("a", 0.0),
            ("b", 0.0),
            ("c", 0.0),
            ("ab", ab),
            ("bc", bc),
        ] {
            push(&mut t, &mut s, &mut y, piece, score, 1);
        }
        Spm::build(t, s, y, 0, 0, 0, false).unwrap()
    };
    assert_eq!(build(-1.0, -2.0).encode("abc"), vec![0, 4, 3]);
    assert_eq!(build(-2.0, -1.0).encode("abc"), vec![0, 1, 5]);
    assert_eq!(build(-1.0, -1.0).encode("abc"), vec![0, 4, 3]);
    // The two zeros are the same score.
    assert_eq!(build(-0.0, 0.0).encode("abc"), vec![0, 4, 3]);
    // A score that is no number compares as equal, so that the left pair wins.
    assert_eq!(build(f32::NAN, -1.0).encode("abc"), vec![0, 4, 3]);
    assert_eq!(build(-1.0, f32::NAN).encode("abc"), vec![0, 4, 3]);
    assert_eq!(build(f32::NAN, f32::NAN).encode("abc"), vec![0, 4, 3]);
}

#[test]
fn spm_scores_that_are_no_numbers_stay_where_they_are() {
    // "ab", "bc" and "cd" overlap in "abcd".
    let build = |ab: f32, bc: f32, cd: f32| {
        let (mut t, mut s, mut y) = (Vec::new(), Vec::new(), Vec::new());
        for (piece, score) in [
            ("\u{2581}", 0.0),
            ("a", 0.0),
            ("b", 0.0),
            ("c", 0.0),
            ("d", 0.0),
            ("ab", ab),
            ("bc", bc),
            ("cd", cd),
        ] {
            push(&mut t, &mut s, &mut y, piece, score, 1);
        }
        Spm::build(t, s, y, 0, 0, 0, false).unwrap().encode("abcd")
    };
    let nan = f32::NAN;
    // Behind a number it does not get ahead.
    assert_eq!(build(-2.0, nan, -1.0), vec![0, 5, 7]);
    assert_eq!(build(-2.0, nan, -3.0), vec![0, 5, 7]);
    // At the left it stays ahead, and "bc" is gone.
    assert_eq!(build(nan, 5.0, -1.0), vec![0, 5, 7]);
    // At the right it loses to the number.
    assert_eq!(build(-2.0, -1.0, nan), vec![0, 1, 6, 4]);
}

#[test]
fn spm_stale_candidates_are_dropped() {
    // "▁ab" is reached through "▁a"; the candidate "ab" of the start is stale
    // by then.
    let mut t: Vec<String> = Vec::new();
    let mut s: Vec<u32> = Vec::new();
    let mut y: Vec<i32> = Vec::new();
    for (piece, score) in [
        ("\u{2581}", 0.0),
        ("a", 0.0),
        ("b", 0.0),
        ("\u{2581}a", 5.0),
        ("ab", 4.0),
        ("\u{2581}ab", 1.0),
        ("bb", 3.0),
    ] {
        push(&mut t, &mut s, &mut y, piece, score, 1);
    }
    let tok = Spm::build(t, s, y, 0, 0, 0, false).unwrap();
    assert_eq!(tok.encode("ab"), vec![5]);
    assert_eq!(tok.encode("abb"), vec![3, 6]);
    assert_eq!(tok.encode("abbb"), vec![3, 6, 2]);
}

#[test]
fn spm_missing_byte_tokens_get_the_unknown_id() {
    let tok = Spm::build(
        vec!["\u{2581}".to_string(), "<0x41>".to_string()],
        vec![0, 0],
        vec![1, TYPE_BYTE],
        0,
        0,
        9,
        false,
    )
    .unwrap();
    assert_eq!(tok.encode("AB"), vec![0, 1, 9]);
    assert_eq!(tok.decode(&[0, 1, 9]), " A");
}

#[test]
fn spm_marker_in_the_text_comes_back_as_a_space() {
    let tok = make_spm();
    assert_eq!(tok.decode(&tok.encode("x\u{2581}y")), " x y");
}

#[test]
fn spm_lengths_must_agree() {
    let r = Spm::build(vec!["a".to_string()], vec![], vec![1], 0, 0, 0, false);
    assert!(matches!(
        r,
        Err(TokenizerError::LengthsDisagree { tokens: 1, scores: 0, types: 1 })
    ));
    let r = Spm::build(vec!["a".to_string()], vec![0], vec![], 0, 0, 0, false);
    assert!(matches!(
        r,
        Err(TokenizerError::LengthsDisagree { tokens: 1, scores: 1, types: 0 })
    ));
}

#[test]
fn byte_tokens_parse_like_hexadecimal_numbers() {
    assert_eq!(parse_byte_token("<0x41>"), Some(0x41));
    assert_eq!(parse_byte_token("<0xfF>"), Some(0xFF));
    assert_eq!(parse_byte_token("<0x7>"), Some(7));
    assert_eq!(parse_byte_token("<0x+1>"), Some(1));
    assert_eq!(parse_byte_token("<0x00A>"), Some(10));
    assert_eq!(parse_byte_token("<0x100>"), None);
    assert_eq!(parse_byte_token("<0x>"), None);
    assert_eq!(parse_byte_token("<0x+>"), None);
    assert_eq!(parse_byte_token("<0xG1>"), None);
    assert_eq!(parse_byte_token("0x41"), None);
    assert_eq!(parse_byte_token("<0x41"), None);
    // The standard library reads the digits the same way.
    for s in ["", "+", "+1", "-1", "0", "f", "FF", "100", "++1", "1 ", "0x1"] {
        assert_eq!(
            parse_byte_token(&format!("<0x{s}>")),
            u8::from_str_radix(s, 16).ok(),
            "{s:?}"
        );
    }
}

#[test]
fn queue_hands_out_best_first() {
    let mut q = Queue::new();
    let scores = [3i64, -1, 7, 7, 0, 7, 2];
    for (i, s) in scores.iter().enumerate() {
        q.push(Bigram { left: 10 - i, right: 11, score: *s, size: 1 });
    }
    let mut got: Vec<(i64, usize)> = Vec::new();
    while let Some(b) = q.pop() {
        got.push((b.score, b.left));
    }
    assert_eq!(got, vec![(7, 5), (7, 7), (7, 8), (3, 10), (2, 4), (0, 6), (-1, 9)]);
}

#[test]
fn tokenizer_wraps_either_kind() {
    let bpe = Tokenizer::Bpe(make_bpe());
    let spm = Tokenizer::Spm(make_spm());
    assert_eq!(bpe.decode(&bpe.encode("hello world")), "hello world");
    assert_eq!(spm.decode(&spm.encode("hello world")), " hello world");
    assert!(!bpe.add_bos());
    assert!(spm.add_bos());
    assert_eq!((bpe.bos(), bpe.eos(), bpe.vocab_size()), (260, 260, 261));
    assert_eq!((spm.bos(), spm.eos(), spm.vocab_size()), (1, 2, 262));
}

#[test]
fn words_keep_every_character() {
    for s in ["", " ", "  ", " a  b ", "x y\tz", "é ü"] {
        assert_eq!(pretokenize(s).concat(), s);
    }
    assert_eq!(pretokenize("  "), vec![" ", " "]);
}
