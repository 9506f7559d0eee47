//! The command line: which command is asked for, and with which options.
//!
//!   talos inspect <model.gguf>
//!   talos run <model.gguf> --prompt "…" [-n N] [--temp T] [--top-k K] [--top-p P] [--seed S] [--ctx N]
//!   talos perplexity <model.gguf> <text-file>

use vstd::prelude::*;

use crate::decimal::{parse_u64, parse_usize, parsed};
use crate::gguf::format::texts;
use crate::text::same_text;

verus! {

/// The command that the arguments ask for. Places are those of the arguments.
#[derive(Clone, Copy, Debug, PartialEq, Eq, Structural)]
pub enum Command {
    /// Print the tensor index of the model at place 1.
    Inspect,
    /// Generate with the model at place 1 and the options from place 2 on.
    Run,
    /// Score the text at place 2 with the model at place 1.
    Perplexity,
    /// None of these, or one without its arguments.
    Usage,
}

/// The command that the arguments ask for.
pub open spec fn command_of(args: Seq<Seq<char>>) -> Command {
    if args.len() >= 2 && args[0] == "inspect"@ {
        Command::Inspect
    } else if args.len() >= 2 && args[0] == "run"@ {
        Command::Run
    } else if args.len() >= 3 && args[0] == "perplexity"@ {
        Command::Perplexity
    } else {
        Command::Usage
    }
}

/// The command that the arguments ask for.
pub fn command(args: &[String]) -> (c: Command)
    ensures
        c == command_of(texts(args@)),
{
    if args.len() < 2 {
        return Command::Usage;
    }
    let name: &str = args[0].as_str();
    assert(texts(args@)[0] == name@);
    if same_text(name, "inspect") {
        Command::Inspect
    } else if same_text(name, "run") {
        Command::Run
    } else if args.len() >= 3 && same_text(name, "perplexity") {
        Command::Perplexity
    } else {
        Command::Usage
    }
}

/// An option of `run`.
#[derive(Clone, Copy, Debug, PartialEq, Eq, Structural)]
pub enum Flag {
    Prompt,
    Tokens,
    Temp,
    TopK,
    TopP,
    Seed,
    Ctx,
}

/// The option that an argument names.
pub open spec fn flag_of(arg: Seq<char>) -> Option<Flag> {
    if arg == "--prompt"@ || arg == "-p"@ {
        Some(Flag::Prompt)
    } else if arg == "-n"@ || arg == "--tokens"@ {
        Some(Flag::Tokens)
    } else if arg == "--temp"@ {
        Some(Flag::Temp)
    } else if arg == "--top-k"@ {
        Some(Flag::TopK)
    } else if arg == "--top-p"@ {
        Some(Flag::TopP)
    } else if arg == "--seed"@ {
        Some(Flag::Seed)
    } else if arg == "--ctx"@ {
        Some(Flag::Ctx)
    } else {
        None
    }
}

/// The option that an argument names.
pub fn flag(arg: &str) -> (f: Option<Flag>)
    ensures
        f == flag_of(arg@),
{
    if same_text(arg, "--prompt") || same_text(arg, "-p") {
        Some(Flag::Prompt)
    } else if same_text(arg, "-n") || same_text(arg, "--tokens") {
        Some(Flag::Tokens)
    } else if same_text(arg, "--temp") {
        Some(Flag::Temp)
    } else if same_text(arg, "--top-k") {
        Some(Flag::TopK)
    } else if same_text(arg, "--top-p") {
        Some(Flag::TopP)
    } else if same_text(arg, "--seed") {
        Some(Flag::Seed)
    } else if same_text(arg, "--ctx") {
        Some(Flag::Ctx)
    } else {
        None
    }
}

/// Why the options of `run` are not in order. Places are those of the
/// arguments behind the model.
#[derive(Clone, Copy, Debug, PartialEq, Eq, Structural)]
pub enum OptError {
    /// The argument at this place is no option.
    Unknown(usize),
    /// The option at this place is the last argument.
    NeedsValue(usize),
    /// The value of the option at this place is no number that it takes.
    BadNumber(usize),
}

/// The options of `run`. The values of `--temp` and `--top-p` are decimal
/// fractions, which are not read here: they are kept as the places of their
/// texts. Every one of them has to be a number, so the places of the ones that
/// were overridden are kept too, in `fractions`.
#[verifier::ext_equal]
pub struct OptsView {
    pub prompt: Option<int>,
    pub n: int,
    pub temp: Option<int>,
    pub top_k: Option<int>,
    pub top_p: Option<int>,
    pub seed: Option<int>,
    pub ctx: int,
    pub fractions: Seq<int>,
}

/// The options without any argument: 64 tokens, in a context of 4096.
pub open spec fn default_opts() -> OptsView {
    OptsView {
        prompt: None,
        n: 64,
        temp: None,
        top_k: None,
        top_p: None,
        seed: None,
        ctx: 4096,
        fractions: seq![],
    }
}

/// The largest number that an option takes.
pub open spec fn limit(f: Flag) -> int {
    if f == Flag::Seed {
        u64::MAX as int
    } else {
        usize::MAX as int
    }
}

/// The options `o` after option `f` with the value `text` at place `at`; `None`
/// if the option takes a number and the value is none.
pub open spec fn with_option(o: OptsView, f: Flag, text: Seq<char>, at: int) -> Option<OptsView> {
    match f {
        Flag::Prompt => Some(OptsView { prompt: Some(at), ..o }),
        Flag::Temp => Some(OptsView { temp: Some(at), fractions: o.fractions.push(at), ..o }),
        Flag::TopP => Some(OptsView { top_p: Some(at), fractions: o.fractions.push(at), ..o }),
        _ => match parsed(text, limit(f)) {
            None => None,
            Some(x) => Some(
                match f {
                    Flag::Tokens => OptsView { n: x, ..o },
                    Flag::TopK => OptsView { top_k: Some(x), ..o },
                    Flag::Seed => OptsView { seed: Some(x), ..o },
                    _ => OptsView { ctx: x, ..o },
                },
            ),
        },
    }
}

/// The options that the first `k` pairs of arguments make, and the error that
/// ends them.
pub open spec fn opts_of(args: Seq<Seq<char>>, k: int) -> (OptsView, Option<OptError>)
    decreases k,
{
    if k <= 0 {
        (default_opts(), None)
    } else {
        let (o, e) = opts_of(args, k - 1);
        let at = 2 * (k - 1);
        if e is Some {
            (o, e)
        } else {
            match flag_of(args[at]) {
                None => (o, Some(OptError::Unknown(at as usize))),
                Some(f) => if at + 1 >= args.len() {
                    (o, Some(OptError::NeedsValue(at as usize)))
                } else {
                    match with_option(o, f, args[at + 1], at + 1) {
                        None => (o, Some(OptError::BadNumber(at as usize))),
                        Some(p) => (p, None),
                    }
                },
            }
        }
    }
}

/// The number of pairs of arguments, the last of which may lack its value.
pub open spec fn pairs(args: Seq<Seq<char>>) -> int {
    (args.len() as int + 1) / 2
}

/// The options of `run`.
#[derive(Clone, Debug)]
pub struct Opts {
    pub prompt: Option<usize>,
    pub n: usize,
    pub temp: Option<usize>,
    pub top_k: Option<usize>,
    pub top_p: Option<usize>,
    pub seed: Option<u64>,
    pub ctx: usize,
    pub fractions: Vec<usize>,
}

/// The number in an option.
pub open spec fn size_in(x: Option<usize>) -> Option<int> {
    match x {
        Some(n) => Some(n as int),
        None => None,
    }
}

impl View for Opts {
    type V = OptsView;

    open spec fn view(&self) -> OptsView {
        OptsView {
            prompt: size_in(self.prompt),
            n: self.n as int,
            temp: size_in(self.temp),
            top_k: size_in(self.top_k),
            top_p: size_in(self.top_p),
            seed: match self.seed {
                Some(n) => Some(n as int),
                None => None,
            },
            ctx: self.ctx as int,
            fractions: self.fractions@.map_values(|x: usize| x as int),
        }
    }
}

impl Opts {
    /// Sets one option; `false` if its value is no number that it takes.
    fn set(&mut self, f: Flag, text: &str, at: usize) -> (ok: bool)
        ensures
            match with_option(old(self)@, f, text@, at as int) {
                Some(o) => ok && final(self)@ == o,
                None => !ok && *final(self) == *old(self),
            },
    {
        match f {
            Flag::Prompt => {
                self.prompt = Some(at);
            },
            Flag::Temp => {
                self.temp = Some(at);
                self.fractions.push(at);
                assert(self@.fractions =~= old(self)@.fractions.push(at as int));
            },
            Flag::TopP => {
                self.top_p = Some(at);
                self.fractions.push(at);
                assert(self@.fractions =~= old(self)@.fractions.push(at as int));
            },
            Flag::Seed => match parse_u64(text) {
                Some(x) => {
                    self.seed = Some(x);
                },
                None => return false,
            },
            _ => match parse_usize(text) {
                Some(x) => {
                    if f == Flag::Tokens {
                        self.n = x;
                    } else if f == Flag::TopK {
                        self.top_k = Some(x);
                    } else {
                        self.ctx = x;
                    }
                },
                None => return false,
            },
        }
        true
    }

    /// Reads the options from the arguments, in order. The options are those
    /// before the error, where there is one.
    pub fn parse(args: &[String]) -> (r: (Opts, Option<OptError>))
        ensures
            (r.0@, r.1) == opts_of(texts(args@), pairs(texts(args@))),
    {
        let ghost all = texts(args@);
        let mut o: Opts = Opts {
            prompt: None,
            n: 64,
            temp: None,
            top_k: None,
            top_p: None,
            seed: None,
            ctx: 4096,
            fractions: Vec::new(),
        };
        assert(o@ =~= default_opts());
        let ghost mut k: int = 0;
        let mut i: usize = 0;
        while i < args.len()
            invariant
                all == texts(args@),
                i == 2 * k || (i == args@.len() && 2 * k == i + 1),
                i <= args@.len(),
                0 <= k <= pairs(all),
                opts_of(all, k) == (o@, None::<OptError>),
            decreases args@.len() - i,
        {
            assert(all[i as int] == args@[i as int]@);
            let f: Flag = match flag(args[i].as_str()) {
                Some(f) => f,
                None => {
                    proof {
                        lemma_ends(all, k + 1, pairs(all));
                    }
                    return (o, Some(OptError::Unknown(i)));
                },
            };
            if args.len() - i < 2 {
                proof {
                    lemma_ends(all, k + 1, pairs(all));
                }
                return (o, Some(OptError::NeedsValue(i)));
            }
            assert(all[i + 1] == args@[i + 1]@);
            if !o.set(f, args[i + 1].as_str(), i + 1) {
                proof {
                    lemma_ends(all, k + 1, pairs(all));
                }
                return (o, Some(OptError::BadNumber(i)));
            }
            i += 2;
            proof {
                k = k + 1;
            }
        }
        (o, None)
    }
}

proof fn lemma_ends(args: Seq<Seq<char>>, k: int, n: int)
    requires
        0 <= k <= n,
        opts_of(args, k).1 is Some,
    ensures
        opts_of(args, n) == opts_of(args, k),
    decreases n,
{
    if k < n {
        lemma_ends(args, k, n - 1);
    }
}

/// How the program is used.
pub fn usage() -> (s: &'static str)
    ensures
        s@ == "usage:\n  talos inspect <model.gguf>\n  talos run <model.gguf> --prompt \"…\" [-n N] [--temp T] [--top-k K] [--top-p P] [--seed S] [--ctx N]\n  talos perplexity <model.gguf> <text-file>"@,
{
    "usage:\n  talos inspect <model.gguf>\n  talos run <model.gguf> --prompt \"…\" [-n N] [--temp T] [--top-k K] [--top-p P] [--seed S] [--ctx N]\n  talos perplexity <model.gguf> <text-file>"
}

} // verus!
