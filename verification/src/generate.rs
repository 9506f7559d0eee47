//! The decisions of a generation run: what the prompt is, when to go on, and
//! what of the decoded text can be shown.

use vstd::prelude::*;

use crate::text::char_list;
use crate::tokenizer::Tokenizer;

verus! {

/// The replacement character, U+FFFD.
pub const REPLACEMENT: char = '\u{FFFD}';

/// The ids of a prompt: a BOS where the tokenizer asks for one, then those of
/// the text. `None` if there is no id at all.
pub fn prompt_ids(tokenizer: &Tokenizer, prompt: &str) -> (r: Option<Vec<u32>>)
    ensures
        match r {
            Some(ids) => ids@.len() > 0 && ids@ == (if tokenizer@.add_bos() {
                seq![tokenizer@.bos()]
            } else {
                seq![]
            }) + tokenizer@.encode(prompt@),
            None => !tokenizer@.add_bos() && tokenizer@.encode(prompt@).len() == 0,
        },
{
    let mut ids: Vec<u32> = Vec::new();
    if tokenizer.add_bos() {
        ids.push(tokenizer.bos());
    }
    let ghost first = ids@;
    assert(first =~= (if tokenizer@.add_bos() {
        seq![tokenizer@.bos()]
    } else {
        seq![]
    }));
    let text_ids: Vec<u32> = tokenizer.encode(prompt);
    ids.extend_from_slice(text_ids.as_slice());
    assert(ids@ =~= first + tokenizer@.encode(prompt@));
    if ids.len() == 0 {
        None
    } else {
        Some(ids)
    }
}

/// What comes of a run in which the model, asked again and again, gives
/// `sampled`: the tokens before the first EOS, as far as there is room for
/// them.
pub open spec fn outcome(sampled: Seq<u32>, eos: u32, room: int) -> Seq<u32>
    decreases sampled.len(),
{
    if sampled.len() == 0 || room <= 0 || sampled[0] == eos {
        seq![]
    } else {
        seq![sampled[0]] + outcome(sampled.drop_first(), eos, room - 1)
    }
}

/// How many tokens a run may make: as many as asked for, and as the context
/// has positions left behind the prompt.
pub open spec fn room_for(n: int, prompt_len: int, context: int) -> int {
    if context <= prompt_len {
        0
    } else if n < context - prompt_len {
        n
    } else {
        context - prompt_len
    }
}

/// A generation run behind its prompt.
pub struct Run {
    /// The position of the next token.
    pos: usize,
    /// How many more tokens may be made.
    left: usize,
    context: usize,
    eos: u32,
    out: Vec<u32>,
    /// How many characters of the decoded text were shown.
    printed: usize,
    stopped: bool,
}

/// What a run is about to do.
#[derive(Clone, Copy, Debug, PartialEq, Eq, Structural)]
pub enum Next {
    /// Sample a token from the last logits, and hand it to [`Run::accept`].
    Sample,
    /// Nothing more.
    Stop,
}

impl Run {
    /// The tokens made so far.
    pub closed spec fn made(&self) -> Seq<u32> {
        self.out@
    }

    /// The position of the next token.
    pub closed spec fn position(&self) -> int {
        self.pos as int
    }

    /// How many more tokens the run may make.
    pub closed spec fn room(&self) -> int {
        if self.stopped {
            0
        } else {
            room_for(self.left as int, self.pos as int, self.context as int)
        }
    }

    pub closed spec fn end_token(&self) -> u32 {
        self.eos
    }

    /// How many characters of the decoded text were shown.
    pub closed spec fn shown(&self) -> int {
        self.printed as int
    }

    /// Starts a run of at most `n` tokens behind a prompt of `prompt_len`.
    pub fn start(prompt_len: usize, n: usize, context: usize, eos: u32) -> (r: Run)
        ensures
            r.made() == Seq::<u32>::empty(),
            r.position() == prompt_len,
            r.room() == room_for(n as int, prompt_len as int, context as int),
            r.end_token() == eos,
            r.shown() == 0,
    {
        Run {
            pos: prompt_len,
            left: n,
            context,
            eos,
            out: Vec::new(),
            printed: 0,
            stopped: false,
        }
    }

    /// What the run is about to do.
    pub fn next(&self) -> (a: Next)
        ensures
            a == (if self.room() > 0 {
                Next::Sample
            } else {
                Next::Stop
            }),
    {
        if self.stopped || self.left == 0 || self.pos >= self.context {
            Next::Stop
        } else {
            Next::Sample
        }
    }

    /// Takes a sampled token. An EOS ends the run; any other token is part of
    /// the output, and is to be fed to the model at the position given back.
    pub fn accept(&mut self, token: u32) -> (fed: Option<usize>)
        requires
            old(self).room() > 0,
        ensures
            final(self).end_token() == old(self).end_token(),
            final(self).shown() == old(self).shown(),
            match fed {
                Some(pos) => {
                    &&& token != old(self).end_token()
                    &&& pos == old(self).position()
                    &&& final(self).made() == old(self).made().push(token)
                    &&& final(self).position() == old(self).position() + 1
                    &&& final(self).room() == old(self).room() - 1
                },
                None => {
                    &&& token == old(self).end_token()
                    &&& final(self).made() == old(self).made()
                    &&& final(self).position() == old(self).position()
                    &&& final(self).room() == 0
                },
            },
    {
        if token == self.eos {
            self.stopped = true;
            return None;
        }
        let pos: usize = self.pos;
        self.out.push(token);
        self.pos = pos + 1;
        self.left = self.left - 1;
        Some(pos)
    }

    /// The tokens made so far.
    pub fn ids(&self) -> (ids: &[u32])
        ensures
            ids@ == self.made(),
    {
        self.out.as_slice()
    }

    /// The part of the decoded text that is newly complete.
    pub fn flush(&mut self, text: &str) -> (part: String)
        ensures
            part@ == newly_complete(text@, old(self).shown()),
            final(self).shown() == complete_len(text@),
            final(self).made() == old(self).made(),
            final(self).position() == old(self).position(),
            final(self).room() == old(self).room(),
            final(self).end_token() == old(self).end_token(),
    {
        let (part, end) = flush_new(text, self.printed);
        self.printed = end;
        part
    }
}

/// A run ends with the outcome: what was made, with the outcome of the tokens
/// still to be sampled behind it, stays the same from one token to the next,
/// and is what was made once the run stops.
pub proof fn run_keeps_outcome(made: Seq<u32>, sampled: Seq<u32>, eos: u32, room: int)
    ensures
        made + outcome(sampled, eos, room) == (if room <= 0 || sampled.len() == 0 || sampled[0]
            == eos {
            made
        } else {
            made.push(sampled[0]) + outcome(sampled.drop_first(), eos, room - 1)
        }),
{
    if room <= 0 || sampled.len() == 0 || sampled[0] == eos {
        assert(made + outcome(sampled, eos, room) =~= made);
    } else {
        assert(made + outcome(sampled, eos, room) =~= made.push(sampled[0]) + outcome(
            sampled.drop_first(),
            eos,
            room - 1,
        ));
    }
}

/// An outcome has no EOS in it and is no longer than there is room.
pub proof fn outcome_is_bounded(sampled: Seq<u32>, eos: u32, room: int)
    requires
        room >= 0,
    ensures
        outcome(sampled, eos, room).len() <= room,
        outcome(sampled, eos, room).len() <= sampled.len(),
        forall|i: int|
            0 <= i < outcome(sampled, eos, room).len() ==> #[trigger] outcome(
                sampled,
                eos,
                room,
            )[i] == sampled[i] && sampled[i] != eos,
    decreases sampled.len(),
{
    if sampled.len() > 0 && room > 0 && sampled[0] != eos {
        outcome_is_bounded(sampled.drop_first(), eos, room - 1);
        let (all, rest) = (
            outcome(sampled, eos, room),
            outcome(sampled.drop_first(), eos, room - 1),
        );
        assert forall|i: int| 0 <= i < all.len() implies #[trigger] all[i] == sampled[i]
            && sampled[i] != eos by {
            if i > 0 {
                assert(all[i] == rest[i - 1]);
            }
        }
    }
}

/// The number of characters of a decoded text that are complete: all, but for
/// a replacement character at the end, which may stand for a character that
/// the next token completes.
pub open spec fn complete_len(text: Seq<char>) -> int {
    if text.len() > 0 && text.last() == REPLACEMENT {
        text.len() - 1
    } else {
        text.len() as int
    }
}

/// What is complete of a text behind its first `printed` characters.
pub open spec fn newly_complete(text: Seq<char>, printed: int) -> Seq<char> {
    let end = complete_len(text);
    text.subrange(
        if printed < end {
            printed
        } else {
            end
        },
        end,
    )
}

/// Whatever decoded text is newly complete since `printed` characters, holding
/// back a trailing replacement character until the next token completes it;
/// and the new count of printed characters.
pub fn flush_new(text: &str, printed: usize) -> (r: (String, usize))
    ensures
        r.0@ == newly_complete(text@, printed as int),
        r.1 == complete_len(text@),
{
    let chars: Vec<char> = char_list(text);
    let n: usize = chars.len();
    let end: usize = if n > 0 && chars[n - 1] == REPLACEMENT {
        n - 1
    } else {
        n
    };
    let start: usize = if printed < end {
        printed
    } else {
        end
    };
    let mut part: String = String::new();
    let mut i: usize = start;
    assert(part@ =~= text@.subrange(start as int, start as int));
    while i < end
        invariant
            chars@ == text@,
            start <= i <= end <= chars@.len(),
            part@ == text@.subrange(start as int, i as int),
        decreases end - i,
    {
        part.push(chars[i]);
        assert(part@ =~= text@.subrange(start as int, i + 1));
        i += 1;
    }
    (part, end)
}

/// What was shown is the text: if everything complete of a text was shown, and
/// the next text goes on from there, then what is shown next completes it.
pub proof fn flushes_join(before: Seq<char>, after: Seq<char>)
    requires
        complete_len(before) <= complete_len(after),
        after.take(complete_len(before)) == before.take(complete_len(before)),
    ensures
        before.take(complete_len(before)) + newly_complete(after, complete_len(before))
            == after.take(complete_len(after)),
{
    let (a, b) = (complete_len(before), complete_len(after));
    assert(after.take(a) + after.subrange(a, b) =~= after.take(b));
}

} // verus!
