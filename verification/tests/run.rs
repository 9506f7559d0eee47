//! Sampling, generation, scoring, and the command line.

use talos::bits::order_of;
use talos::cli::{command, flag, usage, Command, Flag, OptError, Opts};
use talos::decimal::{parse_u64, parse_usize, to_decimal};
use talos::eval::{predictions, scored_tokens, Prediction};
use talos::generate::{flush_new, prompt_ids, Next, Run};
use talos::sample::{argmax, candidates, seed, seed_from};
use talos::text::utf8_len;
use talos::tokenizer::{Bpe, Spm, Tokenizer};

fn bits(v: &[f32]) -> Vec<u32> {
    v.iter().map(|x| x.to_bits()).collect()
}

fn strings(v: &[&str]) -> Vec<String> {
    v.iter().map(|s| s.to_string()).collect()
}

#[test]
fn order_follows_the_numbers() {
    let v = [
        f32::NEG_INFINITY,
        -3.0e38,
        -1.0,
        -1.0e-40,
        0.0,
        1.0e-40,
        0.5,
        1.0,
        3.0e38,
        f32::INFINITY,
    ];
    for (i, a) in v.iter().enumerate() {
        for (j, b) in v.iter().enumerate() {
            assert_eq!(order_of(a.to_bits()) < order_of(b.to_bits()), i < j);
        }
        assert!(order_of(f32::NAN.to_bits()) < order_of(a.to_bits()));
    }
    assert_eq!(order_of((-0.0f32).to_bits()), order_of(0.0f32.to_bits()));
}

#[test]
fn argmax_is_the_first_maximum() {
    assert_eq!(argmax(&bits(&[0.5])), 0);
    assert_eq!(argmax(&bits(&[-2.0, 3.0, 1.0, 3.0])), 1);
    assert_eq!(argmax(&bits(&[-1.0, -0.5, -7.0])), 1);
    assert_eq!(argmax(&bits(&[f32::NAN, -5.0, f32::NAN])), 1);
    assert_eq!(argmax(&bits(&[0.0, -0.0])), 0);
}

#[test]
fn candidates_come_best_first() {
    let l = bits(&[1.0, 5.0, -2.0, 5.0, 3.0]);
    assert_eq!(candidates(&l, None), vec![1, 3, 4, 0, 2]);
    assert_eq!(candidates(&l, Some(3)), vec![1, 3, 4]);
    assert_eq!(candidates(&l, Some(0)), Vec::<u32>::new());
    assert_eq!(candidates(&l, Some(99)), vec![1, 3, 4, 0, 2]);
    assert_eq!(candidates(&[], None), Vec::<u32>::new());
    assert_eq!(candidates(&l, Some(1))[0], argmax(&l));
}

#[test]
fn candidates_rank_large_vocabularies() {
    let l: Vec<u32> = (0..50_000u32).map(|i| ((i * 7919 % 50_021) as f32).to_bits()).collect();
    let ids = candidates(&l, None);
    assert_eq!(ids.len(), l.len());
    assert!(ids.windows(2).all(|w| order_of(l[w[0] as usize]) > order_of(l[w[1] as usize])));
}

#[test]
fn seeds() {
    assert_eq!(seed(Some(7)), 7);
    assert_eq!(seed_from(Some(7), 9), 7);
    assert_eq!(seed_from(None, 9), 9);
    // Two drawn seeds are practically never the same.
    let drawn: Vec<u64> = (0..4).map(|_| seed(None)).collect();
    assert!(drawn.iter().any(|s| *s != drawn[0]));
}

fn bpe() -> Tokenizer {
    let tokens = strings(&["a", "b", "c"]);
    Tokenizer::Bpe(Bpe::build(tokens, &[], 7, 8, 9).unwrap())
}

fn spm() -> Tokenizer {
    let tokens = strings(&["\u{2581}", "a", "b"]);
    Tokenizer::Spm(Spm::build(tokens, vec![0; 3], vec![1; 3], 7, 8, 9, true).unwrap())
}

#[test]
fn prompts() {
    assert_eq!(prompt_ids(&bpe(), "abc"), Some(vec![0, 1, 2]));
    assert_eq!(prompt_ids(&bpe(), ""), None);
    assert_eq!(prompt_ids(&spm(), "ab"), Some(vec![7, 0, 1, 2]));
    assert_eq!(prompt_ids(&spm(), ""), Some(vec![7]));
}

#[test]
fn scored_texts() {
    assert_eq!(scored_tokens(&bpe(), "ab"), Some(vec![7, 0, 1]));
    assert_eq!(scored_tokens(&bpe(), ""), None);
    assert_eq!(
        predictions(&[7, 0, 1]),
        vec![
            Prediction { pos: 0, fed: 7, target: 0 },
            Prediction { pos: 1, fed: 0, target: 1 },
        ]
    );
}

/// Runs through `sampled`, and gives what was made and where it was fed.
fn run_through(prompt: usize, n: usize, context: usize, sampled: &[u32]) -> (Vec<u32>, Vec<usize>) {
    let mut run = Run::start(prompt, n, context, 2);
    let mut fed = Vec::new();
    for t in sampled {
        if run.next() == Next::Stop {
            break;
        }
        match run.accept(*t) {
            Some(pos) => fed.push(pos),
            None => break,
        }
    }
    (run.ids().to_vec(), fed)
}

#[test]
fn runs_stop_where_they_should() {
    // After the number of tokens that was asked for.
    assert_eq!(run_through(3, 2, 100, &[5, 6, 7]), (vec![5, 6], vec![3, 4]));
    // At the end token, which is not part of the output.
    assert_eq!(run_through(3, 9, 100, &[5, 2, 7]), (vec![5], vec![3]));
    // At the end of the context.
    assert_eq!(run_through(3, 9, 5, &[5, 6, 7]), (vec![5, 6], vec![3, 4]));
    // Before the first token.
    assert_eq!(run_through(5, 9, 5, &[5]), (vec![], vec![]));
    assert_eq!(run_through(5, 0, 9, &[5]), (vec![], vec![]));
    let mut run = Run::start(1, 4, 9, 2);
    assert_eq!(run.accept(2), None);
    assert_eq!(run.next(), Next::Stop);
}

#[test]
fn incomplete_characters_are_held_back() {
    assert_eq!(flush_new("abc", 0), ("abc".to_string(), 3));
    assert_eq!(flush_new("abc", 2), ("c".to_string(), 3));
    assert_eq!(flush_new("ab\u{FFFD}", 1), ("b".to_string(), 2));
    assert_eq!(flush_new("\u{FFFD}", 0), ("".to_string(), 0));
    assert_eq!(flush_new("\u{FFFD}a", 0), ("\u{FFFD}a".to_string(), 2));
    assert_eq!(flush_new("a", 5), ("".to_string(), 1));
    assert_eq!(flush_new("", 0), ("".to_string(), 0));
    // Successive flushes show the text once.
    let mut run = Run::start(1, 4, 9, 2);
    let mut shown = String::new();
    for text in ["h", "h\u{FFFD}", "hé", "hé!"] {
        shown.push_str(&run.flush(text));
    }
    assert_eq!(shown, "hé!");
}

#[test]
fn commands() {
    let of = |v: &[&str]| command(&strings(v));
    assert_eq!(of(&["inspect", "m.gguf"]), Command::Inspect);
    assert_eq!(of(&["run", "m.gguf", "-p", "x"]), Command::Run);
    assert_eq!(of(&["perplexity", "m.gguf", "t.txt"]), Command::Perplexity);
    assert_eq!(of(&[]), Command::Usage);
    assert_eq!(of(&["inspect"]), Command::Usage);
    assert_eq!(of(&["run"]), Command::Usage);
    assert_eq!(of(&["perplexity", "m.gguf"]), Command::Usage);
    assert_eq!(of(&["help", "me", "please"]), Command::Usage);
    assert!(usage().starts_with("usage:\n  talos inspect <model.gguf>\n"));
}

#[test]
fn flags() {
    assert_eq!(flag("--prompt"), Some(Flag::Prompt));
    assert_eq!(flag("-p"), Some(Flag::Prompt));
    assert_eq!(flag("-n"), Some(Flag::Tokens));
    assert_eq!(flag("--tokens"), Some(Flag::Tokens));
    assert_eq!(flag("--temp"), Some(Flag::Temp));
    assert_eq!(flag("--top-k"), Some(Flag::TopK));
    assert_eq!(flag("--top-p"), Some(Flag::TopP));
    assert_eq!(flag("--seed"), Some(Flag::Seed));
    assert_eq!(flag("--ctx"), Some(Flag::Ctx));
    assert_eq!(flag("--Ctx"), None);
}

#[test]
fn options_have_defaults() {
    let (o, e) = Opts::parse(&[]);
    assert_eq!(e, None);
    assert_eq!((o.n, o.ctx), (64, 4096));
    assert_eq!((o.prompt, o.temp, o.top_k, o.top_p, o.seed), (None, None, None, None, None));
}

#[test]
fn options_are_read_in_order() {
    let args = strings(&[
        "-p", "hi", "-n", "5", "--temp", "0.5", "--top-k", "40", "--top-p", "0.9", "--seed", "7",
        "--ctx", "128", "-n", "6", "--temp", "1",
    ]);
    let (o, e) = Opts::parse(&args);
    assert_eq!(e, None);
    assert_eq!(o.prompt, Some(1));
    assert_eq!(o.n, 6);
    assert_eq!(o.temp, Some(17));
    assert_eq!(o.top_k, Some(40));
    assert_eq!(o.top_p, Some(9));
    assert_eq!(o.seed, Some(7));
    assert_eq!(o.ctx, 128);
    assert_eq!(o.fractions, vec![5, 9, 17]);
}

#[test]
fn option_errors() {
    let of = |v: &[&str]| Opts::parse(&strings(v)).1;
    assert_eq!(of(&["-p", "x", "--frob", "1"]), Some(OptError::Unknown(2)));
    assert_eq!(of(&["-p"]), Some(OptError::NeedsValue(0)));
    assert_eq!(of(&["-n", "5", "--ctx"]), Some(OptError::NeedsValue(2)));
    assert_eq!(of(&["-n", "x"]), Some(OptError::BadNumber(0)));
    assert_eq!(of(&["--seed", "-1"]), Some(OptError::BadNumber(0)));
    assert_eq!(of(&["--seed", "18446744073709551616"]), Some(OptError::BadNumber(0)));
    assert_eq!(of(&["--seed", "18446744073709551615"]), None);
    // The fractions before an error are kept, so that theirs come first.
    let (o, e) = Opts::parse(&strings(&["--temp", "x", "--frob"]));
    assert_eq!(o.fractions, vec![1]);
    assert_eq!(e, Some(OptError::Unknown(2)));
}

#[test]
fn decimal_numbers() {
    for n in [0usize, 7, 10, 409, 65535, usize::MAX] {
        assert_eq!(to_decimal(n), n.to_string());
        assert_eq!(parse_usize(&to_decimal(n)), Some(n));
    }
    for s in ["", "+", "+5", "-5", "007", "1 ", " 1", "1e3", "99999999999999999999", "٣"] {
        assert_eq!(parse_u64(s), s.parse::<u64>().ok(), "{s:?}");
        assert_eq!(parse_usize(s), s.parse::<usize>().ok(), "{s:?}");
    }
}

#[test]
fn lead_bytes_tell_the_width() {
    for c in ['a', 'é', '世', '😀'] {
        let mut buf = [0u8; 4];
        let s = c.encode_utf8(&mut buf);
        assert_eq!(utf8_len(s.as_bytes()[0]), c.len_utf8());
    }
    // A byte that starts no sequence counts as one.
    assert_eq!(utf8_len(0x80), 1);
    assert_eq!(utf8_len(0xFF), 1);
}
