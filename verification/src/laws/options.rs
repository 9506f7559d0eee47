//! The command line: which command, which option, which value.

use vstd::prelude::*;

use crate::cli::{
    command, flag, flag_of, opts_of, pairs, usage, with_option, Command, Flag, OptError,
    Opts, OptsView,
};
use crate::decimal::{decimal, digit_char, digits_value, parse_u64, parse_usize, parsed};

verus! {

/// A command is asked for by its name and with its arguments: the model, and for
/// the perplexity the text too. Anything else is shown how the program is used.
pub proof fn commands_have_their_names(args: &[String], c: Command)
    requires
        call_ensures(command, (args,), c),
    ensures
        c == Command::Inspect <==> args@.len() >= 2 && args@[0]@ == "inspect"@,
        c == Command::Run <==> args@.len() >= 2 && args@[0]@ == "run"@,
        c == Command::Perplexity <==> args@.len() >= 3 && args@[0]@ == "perplexity"@,
{
    lemma_names_differ();
}

proof fn lemma_names_differ()
    ensures
        "inspect"@ != "run"@,
        "inspect"@ != "perplexity"@,
        "run"@ != "perplexity"@,
{
    reveal_strlit("inspect");
    reveal_strlit("run");
    reveal_strlit("perplexity");
    assert("inspect"@.len() == 7 && "run"@.len() == 3 && "perplexity"@.len() == 10);
}

/// How the program is used: each command with its arguments, and the options of a
/// run.
pub proof fn usage_shows_the_commands(s: &'static str)
    requires
        call_ensures(usage, (), s),
    ensures
        s@ == "usage:\n  talos inspect <model.gguf>\n  talos run <model.gguf> --prompt \"…\" [-n N] [--temp T] [--top-k K] [--top-p P] [--seed S] [--ctx N]\n  talos perplexity <model.gguf> <text-file>"@,
{
}

/// An option is given by its name, or by its short one where it has one.
pub proof fn options_have_their_names(arg: &str, f: Option<Flag>)
    requires
        call_ensures(flag, (arg,), f),
    ensures
        f == Some(Flag::Prompt) <==> arg@ == "--prompt"@ || arg@ == "-p"@,
        f == Some(Flag::Tokens) <==> arg@ == "--tokens"@ || arg@ == "-n"@,
        f == Some(Flag::Temp) <==> arg@ == "--temp"@,
        f == Some(Flag::TopK) <==> arg@ == "--top-k"@,
        f == Some(Flag::TopP) <==> arg@ == "--top-p"@,
        f == Some(Flag::Seed) <==> arg@ == "--seed"@,
        f == Some(Flag::Ctx) <==> arg@ == "--ctx"@,
        f == flag_of(arg@),
{
    lemma_options_differ();
}

proof fn lemma_options_differ()
    ensures
        "--prompt"@.len() == 8 && "-p"@.len() == 2 && "--tokens"@.len() == 8 && "-n"@.len() == 2,
        "--temp"@.len() == 6 && "--top-k"@.len() == 7 && "--top-p"@.len() == 7,
        "--seed"@.len() == 6 && "--ctx"@.len() == 5,
        "--prompt"@ != "--tokens"@,
        "-p"@ != "-n"@,
        "--temp"@ != "--seed"@,
        "--top-k"@ != "--top-p"@,
{
    reveal_strlit("--prompt");
    reveal_strlit("-p");
    reveal_strlit("--tokens");
    reveal_strlit("-n");
    reveal_strlit("--temp");
    reveal_strlit("--top-k");
    reveal_strlit("--top-p");
    reveal_strlit("--seed");
    reveal_strlit("--ctx");
    assert("--prompt"@[2] == 'p' && "--tokens"@[2] == 't');
    assert("-p"@[1] == 'p' && "-n"@[1] == 'n');
    assert("--temp"@[2] == 't' && "--seed"@[2] == 's');
    assert("--top-k"@[6] == 'k' && "--top-p"@[6] == 'p');
}

/// Whether the option of pair `i` of the arguments is `f`, and no later pair's is.
pub open spec fn is_last_given(args: Seq<Seq<char>>, k: int, f: Flag, i: int) -> bool {
    &&& 0 <= i < k
    &&& flag_of(args[2 * i]) == Some(f)
    &&& forall|j: int| i < j < k ==> #[trigger] flag_of(args[2 * j]) != Some(f)
}

/// Whether no pair of the arguments has option `f`.
pub open spec fn is_not_given(args: Seq<Seq<char>>, k: int, f: Flag) -> bool {
    forall|j: int| 0 <= j < k ==> #[trigger] flag_of(args[2 * j]) != Some(f)
}

/// What the first `k` pairs of arguments ask for: of several that give an option
/// the last counts, and an option that none gives is as it is without arguments,
/// 64 tokens and a context of 4096. The texts of the prompt, the temperature and
/// the nucleus are kept by their place.
pub open spec fn asks_for(args: Seq<Seq<char>>, k: int, o: OptsView) -> bool {
    &&& is_not_given(args, k, Flag::Tokens) ==> o.n == 64
    &&& is_not_given(args, k, Flag::Ctx) ==> o.ctx == 4096
    &&& is_not_given(args, k, Flag::Prompt) ==> o.prompt is None
    &&& is_not_given(args, k, Flag::Temp) ==> o.temp is None
    &&& is_not_given(args, k, Flag::TopP) ==> o.top_p is None
    &&& is_not_given(args, k, Flag::TopK) ==> o.top_k is None
    &&& is_not_given(args, k, Flag::Seed) ==> o.seed is None
    &&& forall|i: int| #[trigger]
        is_last_given(args, k, Flag::Tokens, i) ==> parsed(args[2 * i + 1], usize::MAX as int)
            == Some(o.n)
    &&& forall|i: int| #[trigger]
        is_last_given(args, k, Flag::Ctx, i) ==> parsed(args[2 * i + 1], usize::MAX as int) == Some(
            o.ctx,
        )
    &&& forall|i: int| #[trigger]
        is_last_given(args, k, Flag::TopK, i) ==> parsed(args[2 * i + 1], usize::MAX as int)
            == o.top_k && o.top_k is Some
    &&& forall|i: int| #[trigger]
        is_last_given(args, k, Flag::Seed, i) ==> parsed(args[2 * i + 1], u64::MAX as int)
            == o.seed && o.seed is Some
    &&& forall|i: int| #[trigger]
        is_last_given(args, k, Flag::Prompt, i) ==> o.prompt == Some(2 * i + 1)
    &&& forall|i: int| #[trigger]
        is_last_given(args, k, Flag::Temp, i) ==> o.temp == Some(2 * i + 1)
    &&& forall|i: int| #[trigger]
        is_last_given(args, k, Flag::TopP, i) ==> o.top_p == Some(2 * i + 1)
    &&& forall|at: int| #[trigger]
        o.fractions.contains(at) <==> exists|i: int|
            0 <= i < k && at == 2 * i + 1 && (#[trigger] flag_of(args[2 * i]) == Some(Flag::Temp)
                || flag_of(args[2 * i]) == Some(Flag::TopP))
}

proof fn lemma_last_given(args: Seq<Seq<char>>, k: int, f: Flag)
    requires
        0 < k,
    ensures
        flag_of(args[2 * (k - 1)]) == Some(f) ==> forall|i: int| #[trigger]
            is_last_given(args, k, f, i) ==> i == k - 1,
        flag_of(args[2 * (k - 1)]) == Some(f) ==> !is_not_given(args, k, f),
        flag_of(args[2 * (k - 1)]) != Some(f) ==> forall|i: int| #[trigger]
            is_last_given(args, k, f, i) ==> is_last_given(args, k - 1, f, i),
        is_not_given(args, k, f) ==> is_not_given(args, k - 1, f),
{
    if flag_of(args[2 * (k - 1)]) == Some(f) {
        assert forall|i: int| #[trigger] is_last_given(args, k, f, i) implies i == k - 1 by {
            if i < k - 1 {
                assert(flag_of(args[2 * (k - 1)]) != Some(f));
            }
        }
    }
}

proof fn lemma_asks(args: Seq<Seq<char>>, k: int)
    requires
        0 <= k,
        opts_of(args, k).1 is None,
    ensures
        asks_for(args, k, opts_of(args, k).0),
        2 * k <= args.len(),
        forall|i: int| 0 <= i < k ==> (#[trigger] flag_of(args[2 * i])) is Some,
    decreases k,
{
    let o = opts_of(args, k).0;
    if k == 0 {
        assert(forall|at: int| !o.fractions.contains(at));
    } else {
        let p = opts_of(args, k - 1).0;
        lemma_asks(args, k - 1);
        let at = 2 * (k - 1);
        let f = flag_of(args[at])->0;
        assert(flag_of(args[at]) is Some);
        assert(with_option(p, f, args[at + 1], at + 1) == Some(o));
        lemma_last_given(args, k, Flag::Tokens);
        lemma_last_given(args, k, Flag::Ctx);
        lemma_last_given(args, k, Flag::Prompt);
        lemma_last_given(args, k, Flag::Temp);
        lemma_last_given(args, k, Flag::TopP);
        lemma_last_given(args, k, Flag::TopK);
        lemma_last_given(args, k, Flag::Seed);
        lemma_fractions(args, k, p, o, f);
        assert forall|i: int| 0 <= i < k implies (#[trigger] flag_of(args[2 * i])) is Some by {
            if i < k - 1 {
                assert(flag_of(args[2 * i]) is Some);
            }
        }
    }
}

proof fn lemma_fractions(args: Seq<Seq<char>>, k: int, p: OptsView, o: OptsView, f: Flag)
    requires
        0 < k,
        flag_of(args[2 * (k - 1)]) == Some(f),
        with_option(p, f, args[2 * (k - 1) + 1], 2 * (k - 1) + 1) == Some(o),
        asks_for(args, k - 1, p),
    ensures
        forall|at: int| #[trigger]
            o.fractions.contains(at) <==> exists|i: int|
                0 <= i < k && at == 2 * i + 1 && (#[trigger] flag_of(args[2 * i]) == Some(
                    Flag::Temp,
                ) || flag_of(args[2 * i]) == Some(Flag::TopP)),
{
    let last = 2 * (k - 1) + 1;
    let more = f == Flag::Temp || f == Flag::TopP;
    assert forall|at: int| #[trigger]
        o.fractions.contains(at) <==> p.fractions.contains(at) || more && at == last by {
        if more {
            assert(o.fractions == p.fractions.push(last));
            if at == last {
                assert(o.fractions[p.fractions.len() as int] == last);
            }
            if p.fractions.contains(at) {
                let j = choose|j: int| 0 <= j < p.fractions.len() && p.fractions[j] == at;
                assert(o.fractions[j] == at);
            }
            if o.fractions.contains(at) && at != last {
                let j = choose|j: int| 0 <= j < o.fractions.len() && o.fractions[j] == at;
                assert(p.fractions[j] == at);
            }
        }
    }
    assert forall|at: int| #[trigger] o.fractions.contains(at) implies exists|i: int|
        0 <= i < k && at == 2 * i + 1 && (#[trigger] flag_of(args[2 * i]) == Some(Flag::Temp)
            || flag_of(args[2 * i]) == Some(Flag::TopP)) by {
        if p.fractions.contains(at) {
            let i = choose|i: int|
                0 <= i < k - 1 && at == 2 * i + 1 && (#[trigger] flag_of(args[2 * i]) == Some(
                    Flag::Temp,
                ) || flag_of(args[2 * i]) == Some(Flag::TopP));
            assert(0 <= i < k && (flag_of(args[2 * i]) == Some(Flag::Temp) || flag_of(args[2 * i])
                == Some(Flag::TopP)));
        } else {
            assert(at == 2 * (k - 1) + 1 && (flag_of(args[2 * (k - 1)]) == Some(Flag::Temp)
                || flag_of(args[2 * (k - 1)]) == Some(Flag::TopP)));
        }
    }
    assert forall|at: int, i: int|
        0 <= i < k && at == 2 * i + 1 && (#[trigger] flag_of(args[2 * i]) == Some(Flag::Temp)
            || flag_of(args[2 * i]) == Some(Flag::TopP)) implies #[trigger] o.fractions.contains(
        at,
    ) by {
        if i < k - 1 {
            assert(p.fractions.contains(at));
        }
    }
}

/// Whether both are none, or the same number.
pub open spec fn same_number(x: Option<usize>, y: Option<int>) -> bool {
    match (x, y) {
        (Some(a), Some(b)) => a == b,
        (None, None) => true,
        _ => false,
    }
}

/// The options of a run are what its arguments ask for, or the first thing that
/// is wrong with them: an argument that is no option, an option without a value,
/// or a value that is no number.
pub proof fn options_are_what_was_asked_for(args: &[String], r: (Opts, Option<OptError>))
    requires
        call_ensures(Opts::parse, (args,), r),
    ensures
        ({
            let texts = args@.map_values(|s: String| s@);
            &&& r.1 is None ==> args@.len() as int % 2 == 0 && asks_for(
                texts,
                args@.len() as int / 2,
                r.0@,
            ) && forall|i: int|
                0 <= i < args@.len() as int / 2 ==> (#[trigger] flag_of(texts[2 * i])) is Some
            &&& r.1 matches Some(e) ==> exists|k: int| #[trigger] is_wrong(texts, k, e)
        }),
        r.0@.n == r.0.n,
        r.0@.ctx == r.0.ctx,
        same_number(r.0.prompt, r.0@.prompt),
        same_number(r.0.temp, r.0@.temp),
        same_number(r.0.top_k, r.0@.top_k),
        same_number(r.0.top_p, r.0@.top_p),
        r.0.seed is Some <==> r.0@.seed is Some,
        r.0.seed is Some ==> r.0@.seed->0 == r.0.seed->0,
        r.0@.fractions.len() == r.0.fractions@.len(),
        forall|i: int|
            0 <= i < r.0.fractions@.len() ==> r.0@.fractions[i] == #[trigger] r.0.fractions@[i],
{
    let texts = args@.map_values(|s: String| s@);
    assert(crate::gguf::format::texts(args@) =~= texts);
    let n = pairs(texts);
    if r.1 is None {
        lemma_asks(texts, n);
    } else {
        lemma_wrong(texts, n);
    }
}

/// Whether what is wrong with the arguments is wrong with pair `k`, where all the
/// pairs before it are in order.
pub open spec fn is_wrong(args: Seq<Seq<char>>, k: int, e: OptError) -> bool {
    &&& 0 <= 2 * k < args.len()
    &&& exists|o: OptsView| #[trigger] asks_for(args, k, o)
    &&& match e {
        OptError::Unknown(at) => at == (2 * k) as usize && flag_of(args[2 * k]) is None,
        OptError::NeedsValue(at) => at == (2 * k) as usize && flag_of(args[2 * k]) is Some && 2 * k
            + 1 == args.len(),
        OptError::BadNumber(at) => {
            &&& at == (2 * k) as usize
            &&& 2 * k + 1 < args.len()
            &&& match flag_of(args[2 * k]) {
                Some(Flag::Seed) => parsed(args[2 * k + 1], u64::MAX as int) is None,
                Some(Flag::Tokens) => parsed(args[2 * k + 1], usize::MAX as int) is None,
                Some(Flag::TopK) => parsed(args[2 * k + 1], usize::MAX as int) is None,
                Some(Flag::Ctx) => parsed(args[2 * k + 1], usize::MAX as int) is None,
                _ => false,
            }
        },
    }
}

proof fn lemma_wrong(args: Seq<Seq<char>>, n: int)
    requires
        0 <= n <= pairs(args),
        opts_of(args, n).1 is Some,
    ensures
        exists|k: int| #[trigger] is_wrong(args, k, opts_of(args, n).1->0),
    decreases n,
{
    if n > 0 {
        if opts_of(args, n - 1).1 is Some {
            lemma_wrong(args, n - 1);
        } else {
            lemma_asks(args, n - 1);
            let o = opts_of(args, n - 1).0;
            assert(asks_for(args, n - 1, o));
            assert(is_wrong(args, n - 1, opts_of(args, n).1->0));
        }
    }
}

/// A number that was written in decimal is read as itself, if it is not too
/// large; a plus sign may stand before it, and zeros.
pub proof fn numbers_read_as_written(s: &str, small: Option<usize>, large: Option<u64>, n: nat)
    requires
        call_ensures(parse_usize, (s,), small),
        call_ensures(parse_u64, (s,), large),
        s@ == decimal(n) || s@ == seq!['+'] + decimal(n) || s@ == seq!['0'] + decimal(n),
    ensures
        n <= usize::MAX ==> small == Some(n as usize),
        n > usize::MAX ==> small is None,
        n <= u64::MAX ==> large == Some(n as u64),
        n > u64::MAX ==> large is None,
{
    let d = decimal(n);
    lemma_decimal(n);
    assert(d[0] != '+') by {
        lemma_first_is_digit(d);
    }
    if s@ == seq!['+'] + d {
        assert(s@.skip(1) =~= d);
    } else if s@ == seq!['0'] + d {
        lemma_zero_before(d);
        assert(s@[0] == '0');
    }
}

proof fn lemma_decimal(n: nat)
    ensures
        decimal(n).len() > 0,
        digits_value(decimal(n)) == Some(n as int),
    decreases n,
{
    let d = (n % 10) as int;
    assert(digit_char(d) as u32 == 48 + d);
    if n < 10 {
        let one = seq![digit_char(n as int)];
        assert(one.drop_last() =~= seq![]);
        assert(digits_value(one.drop_last()) == Some(0int));
    } else {
        lemma_decimal(n / 10);
        assert(decimal(n).drop_last() =~= decimal(n / 10));
    }
}

proof fn lemma_first_is_digit(d: Seq<char>)
    requires
        d.len() > 0,
        digits_value(d) is Some,
    ensures
        '0' <= d[0] && d[0] <= '9',
    decreases d.len(),
{
    if d.len() > 1 {
        lemma_first_is_digit(d.drop_last());
        assert(d.drop_last()[0] == d[0]);
    }
}

proof fn lemma_zero_before(d: Seq<char>)
    ensures
        digits_value(seq!['0'] + d) == digits_value(d),
    decreases d.len(),
{
    let z = seq!['0'] + d;
    if d.len() == 0 {
        assert(z.drop_last() =~= seq![]);
        assert(digits_value(z.drop_last()) == Some(0int));
        assert(z.last() == '0');
    } else {
        assert(z.drop_last() =~= seq!['0'] + d.drop_last());
        assert(z.last() == d.last());
        lemma_zero_before(d.drop_last());
    }
}

/// A zero before a number does not change it, whatever digits follow.
pub proof fn zeros_before_do_not_count(
    s: &str,
    t: &str,
    small: (Option<usize>, Option<usize>),
    large: (Option<u64>, Option<u64>),
)
    requires
        s@.len() > 0,
        s@[0] != '+',
        t@ == seq!['0'] + s@,
        call_ensures(parse_usize, (s,), small.0),
        call_ensures(parse_usize, (t,), small.1),
        call_ensures(parse_u64, (s,), large.0),
        call_ensures(parse_u64, (t,), large.1),
    ensures
        small.0 == small.1,
        large.0 == large.1,
{
    lemma_zero_before(s@);
    assert(t@[0] == '0');
}

/// A text with a character that is no digit behind its first is no number, and
/// neither is an empty one.
pub proof fn other_texts_are_no_numbers(s: &str, small: Option<usize>, large: Option<u64>, i: int)
    requires
        call_ensures(parse_usize, (s,), small),
        call_ensures(parse_u64, (s,), large),
        s@.len() == 0 || 0 <= i < s@.len() && !('0' <= s@[i] && s@[i] <= '9') && (i > 0 || s@[i]
            != '+'),
    ensures
        small is None,
        large is None,
{
    if s@.len() > 0 {
        let digits = if s@[0] == '+' {
            s@.skip(1)
        } else {
            s@
        };
        let j = if s@[0] == '+' {
            i - 1
        } else {
            i
        };
        assert(digits[j] == s@[i]);
        lemma_no_digit(digits, j);
    }
}

proof fn lemma_no_digit(d: Seq<char>, i: int)
    requires
        0 <= i < d.len(),
        !('0' <= d[i] && d[i] <= '9'),
    ensures
        digits_value(d) is None,
    decreases d.len(),
{
    if i < d.len() - 1 {
        lemma_no_digit(d.drop_last(), i);
    }
}

} // verus!
