//! Perplexity: `exp` of the mean per-token negative log-likelihood under
//! teacher forcing. The real tokens are fed in order, and at each position the
//! token that actually came next is scored.

use vstd::prelude::*;

use crate::kv_cache::KvCache;
use crate::math::kernels::Kernels;
use crate::math::ops::{top_of, topped};
use crate::model::decode::{
    cache_before, fed, fed_until, lemma_fed_binds, lemma_fed_more, restarted, unbound, Fed,
};
use crate::model::forward::ForwardError;
use crate::model::forward_laws::{logits_cover_vocabulary, with_cache};
use crate::model::Model;
use crate::tokenizer::Tokenizer;

verus! {

/// One prediction to score: the token `fed` at position `pos`, and the token
/// `target` that came next.
#[derive(Clone, Copy, Debug, PartialEq, Eq, Structural)]
pub struct Prediction {
    pub pos: usize,
    pub fed: u32,
    pub target: u32,
}

/// The predictions that a list of tokens asks for.
pub open spec fn predictions_of(tokens: Seq<u32>) -> Seq<Prediction> {
    Seq::new(
        (tokens.len() - 1) as nat,
        |i: int| Prediction { pos: i as usize, fed: tokens[i], target: tokens[i + 1] },
    )
}

/// The predictions that a list of tokens asks for, in order. There is none to
/// score in a list of less than two tokens.
pub fn predictions(tokens: &[u32]) -> (v: Vec<Prediction>)
    requires
        tokens@.len() >= 2,
    ensures
        v@ == predictions_of(tokens@),
{
    let mut v: Vec<Prediction> = Vec::new();
    let mut i: usize = 0;
    while i < tokens.len() - 1
        invariant
            tokens@.len() >= 2,
            i <= tokens@.len() - 1,
            v@ == predictions_of(tokens@).take(i as int),
        decreases tokens@.len() - i,
    {
        let p: Prediction = Prediction { pos: i, fed: tokens[i], target: tokens[i + 1] };
        v.push(p);
        assert(v@ =~= predictions_of(tokens@).take(i + 1));
        i += 1;
    }
    assert(predictions_of(tokens@).take(i as int) =~= predictions_of(tokens@));
    v
}

/// The tokens of a text to score: its ids, behind a BOS so that the first real
/// token is scored with context. `None` if that leaves nothing to score.
pub fn scored_tokens(tokenizer: &Tokenizer, text: &str) -> (tokens: Option<Vec<u32>>)
    ensures
        match tokens {
            Some(v) => v@ == seq![tokenizer@.bos()] + tokenizer@.encode(text@) && v@.len() >= 2,
            None => tokenizer@.encode(text@).len() == 0,
        },
{
    let ids: Vec<u32> = tokenizer.encode(text);
    let mut v: Vec<u32> = Vec::new();
    v.push(tokenizer.bos());
    v.extend_from_slice(ids.as_slice());
    assert(v@ =~= seq![tokenizer@.bos()] + tokenizer@.encode(text@));
    if v.len() < 2 {
        None
    } else {
        Some(v)
    }
}

/// Every token but the first is scored once, and every token but the last is
/// fed once, at its own position.
pub proof fn every_token_is_scored(tokens: Seq<u32>, i: int)
    requires
        tokens.len() <= usize::MAX,
        0 < i < tokens.len(),
    ensures
        predictions_of(tokens).len() == tokens.len() - 1,
        predictions_of(tokens)[i - 1].target == tokens[i],
        predictions_of(tokens)[i - 1].fed == tokens[i - 1],
        predictions_of(tokens)[i - 1].pos == i - 1,
{
}

/// The arithmetic of scoring, with sums in a type of their own. Like
/// [`Kernels`], it promises nothing of its results.
pub trait Scoring: Kernels {
    type Sum: Copy;

    fn nothing(&self) -> Self::Sum;

    /// `sum + exp(x - top)`.
    fn add_exp(&self, sum: Self::Sum, x: Self::Num, top: Self::Num) -> Self::Sum;

    /// `ln(sum) - (logit - top)`.
    fn loss(&self, logit: Self::Num, top: Self::Num, sum: Self::Sum) -> Self::Num;

    /// `sum + loss`.
    fn add_loss(&self, sum: Self::Sum, loss: Self::Num) -> Self::Sum;

    /// `exp(sum / n)`.
    fn exp_mean(&self, sum: Self::Sum, n: usize) -> Self::Num
        requires
            n > 0,
    ;
}

/// Whether `sums` are the running sums of the exponentials of `x`, shifted by
/// `top`.
pub open spec fn exp_sums<S: Scoring>(
    s: &S,
    x: Seq<S::Num>,
    top: S::Num,
    sums: Seq<S::Sum>,
) -> bool {
    &&& sums.len() == x.len() + 1
    &&& call_ensures(S::nothing, (s,), sums[0])
    &&& forall|i: int|
        0 <= i < x.len() ==> call_ensures(
            S::add_exp,
            (s, sums[i], #[trigger] x[i], top),
            sums[i + 1],
        )
}

/// Whether `sum` is the sum of the exponentials of `x`, shifted by `top`.
pub open spec fn exp_total<S: Scoring>(s: &S, x: Seq<S::Num>, top: S::Num, sum: S::Sum) -> bool {
    exists|sums: Seq<S::Sum>| #[trigger] exp_sums(s, x, top, sums) && sums.last() == sum
}

/// Whether `loss` is the negative log-likelihood that the logits assign to
/// `target`.
pub open spec fn nll_of<S: Scoring>(
    s: &S,
    logits: Seq<S::Num>,
    target: int,
    loss: S::Num,
) -> bool {
    exists|top: S::Num, sum: S::Sum| #[trigger]
        topped(s, logits, top) && #[trigger] exp_total(s, logits, top, sum) && call_ensures(
            S::loss,
            (s, logits[target], top, sum),
            loss,
        )
}

/// Negative log-likelihood (in nats) the logits assign to `target`:
/// `-log softmax(logits)[target]`, by the log-sum-exp trick.
pub fn token_nll<S: Scoring>(s: &S, logits: &[S::Num], target: u32) -> (loss: S::Num)
    requires
        target < logits@.len(),
    ensures
        nll_of(s, logits@, target as int, loss),
{
    let top: S::Num = top_of(s, logits);
    let mut sum: S::Sum = s.nothing();
    let ghost mut sums: Seq<S::Sum> = seq![sum];
    let mut i: usize = 0;
    assert(logits@.take(0).len() == 0);
    while i < logits.len()
        invariant
            i <= logits@.len(),
            sums.len() == i + 1,
            sums.last() == sum,
            exp_sums(s, logits@.take(i as int), top, sums),
        decreases logits@.len() - i,
    {
        let next: S::Sum = s.add_exp(sum, logits[i], top);
        proof {
            let (now, more) = (logits@.take(i + 1), sums.push(next));
            assert forall|j: int| 0 <= j < now.len() implies call_ensures(
                S::add_exp,
                (s, more[j], #[trigger] now[j], top),
                more[j + 1],
            ) by {
                assert(more[j] == sums[j]);
                if j < i {
                    assert(now[j] == logits@.take(i as int)[j]);
                }
            }
            sums = more;
        }
        sum = next;
        i += 1;
    }
    assert(logits@.take(i as int) =~= logits@);
    assert(exp_total(s, logits@, top, sum));
    s.loss(logits[target as usize], top, sum)
}

/// Whether `next` is `sum` with the loss of one prediction added.
pub open spec fn loss_added<S: Scoring>(
    s: &S,
    logits: Seq<S::Num>,
    target: u32,
    sum: S::Sum,
    next: S::Sum,
) -> bool {
    exists|loss: S::Num| #[trigger]
        nll_of(s, logits, target as int, loss) && call_ensures(S::add_loss, (s, sum, loss), next)
}

/// Whether `sums` are the running sums of the losses, step by step: each step
/// is scored by the token behind the one that it was fed.
pub open spec fn loss_sums<S: Scoring>(
    s: &S,
    tokens: Seq<u32>,
    steps: Seq<Fed<S::Num>>,
    sums: Seq<S::Sum>,
) -> bool {
    &&& sums.len() == steps.len() + 1
    &&& call_ensures(S::nothing, (s,), sums[0])
    &&& forall|i: int|
        0 <= i < steps.len() ==> loss_added(
            s,
            (#[trigger] steps[i]).logits@,
            tokens[i + 1],
            sums[i],
            sums[i + 1],
        )
}

/// Whether `p` is what the losses of the steps come to.
pub open spec fn averaged<S: Scoring>(
    s: &S,
    tokens: Seq<u32>,
    steps: Seq<Fed<S::Num>>,
    p: S::Num,
) -> bool {
    exists|sums: Seq<S::Sum>| #[trigger]
        loss_sums(s, tokens, steps, sums) && call_ensures(
            S::exp_mean,
            (s, sums.last(), steps.len() as usize),
            p,
        )
}

/// Whether scoring the tokens under a model leaves the cache `after`, and `r`.
pub open spec fn scored<'a, S: Scoring>(
    s: &S,
    m: Model<'a, S::Num>,
    tokens: Seq<u32>,
    after: KvCache<S::Num>,
    r: Result<S::Num, ForwardError>,
) -> bool {
    match r {
        Ok(p) => exists|fresh: Model<'a, S::Num>, steps: Seq<Fed<S::Num>>| #[trigger]
            fed(s, fresh, tokens.drop_last(), steps) && restarted(m, fresh) && steps.last().kv
                == after && averaged(s, tokens, steps, p),
        Err(ForwardError::Weights(e)) => unbound(m, after, e),
        Err(ForwardError::Kernel(op)) => exists|
            fresh: Model<'a, S::Num>,
            steps: Seq<Fed<S::Num>>,
        | #[trigger]
            fed_until(s, fresh, tokens.drop_last(), steps, after, op) && restarted(m, fresh),
    }
}

/// One more loss.
proof fn lemma_loss_more<S: Scoring>(
    s: &S,
    tokens: Seq<u32>,
    steps: Seq<Fed<S::Num>>,
    sums: Seq<S::Sum>,
    step: Fed<S::Num>,
    next: S::Sum,
)
    requires
        loss_sums(s, tokens, steps, sums),
        loss_added(s, step.logits@, tokens[steps.len() as int + 1], sums.last(), next),
    ensures
        loss_sums(s, tokens, steps.push(step), sums.push(next)),
{
    let (n, a, b) = (steps.len() as int, steps.push(step), sums.push(next));
    assert forall|i: int| 0 <= i < n + 1 implies loss_added(
        s,
        (#[trigger] a[i]).logits@,
        tokens[i + 1],
        b[i],
        b[i + 1],
    ) by {
        assert(b[i] == sums[i]);
        if i < n {
            assert(a[i] == steps[i]);
        }
    }
}

/// Teacher-forced perplexity of `tokens` under a model, on a fresh cache.
pub fn perplexity<S: Scoring>(s: &S, model: &mut Model<'_, S::Num>, tokens: &[u32]) -> (r: Result<
    S::Num,
    ForwardError,
>)
    requires
        old(model).wf(),
        tokens@.len() >= 2,
        forall|i: int|
            0 <= i < tokens@.len() ==> (#[trigger] tokens@[i]) < old(model).cfg.vocab_size,
    ensures
        final(model).wf(),
        final(model).cfg == old(model).cfg,
        final(model).tokenizer == old(model).tokenizer,
        final(model).gguf == old(model).gguf,
        scored(s, *old(model), tokens@, final(model).kv, r),
{
    model.reset();
    let list: Vec<Prediction> = predictions(tokens);
    let ghost (fresh, ids) = (*model, tokens@.drop_last());
    let ghost mut steps: Seq<Fed<S::Num>> = seq![];
    let mut sum: S::Sum = s.nothing();
    let ghost mut sums: Seq<S::Sum> = seq![sum];
    let mut i: usize = 0;
    while i < list.len()
        invariant
            restarted(*old(model), fresh),
            model.wf(),
            model.cfg == fresh.cfg,
            model.tokenizer == fresh.tokenizer,
            model.gguf == fresh.gguf,
            model.kv == cache_before(fresh, steps, i as int),
            tokens@.len() >= 2,
            ids == tokens@.drop_last(),
            forall|j: int|
                0 <= j < tokens@.len() ==> (#[trigger] tokens@[j]) < model.cfg.vocab_size,
            list@ == predictions_of(tokens@),
            i <= list@.len(),
            steps.len() == i,
            sums.last() == sum,
            fed(s, fresh, ids.take(i as int), steps),
            loss_sums(s, tokens@, steps, sums),
        decreases list@.len() - i,
    {
        let p: Prediction = list[i];
        let ghost now = *model;
        assert(now == with_cache(fresh, cache_before(fresh, steps, i as int)));
        assert(p.fed == tokens@[i as int] && p.target == tokens@[i + 1] && p.fed == ids[i as int]);
        assert(p.pos == i);
        let logits: Vec<S::Num> = match model.forward(s, p.fed, p.pos) {
            Ok(l) => l,
            Err(ForwardError::Weights(e)) => {
                proof {
                    if i > 0 {
                        lemma_fed_binds(s, fresh, ids.take(i as int), steps);
                    }
                    assert(with_cache(*old(model), model.kv) == fresh);
                    assert(unbound(*old(model), model.kv, e));
                }
                return Err(ForwardError::Weights(e));
            },
            Err(ForwardError::Kernel(op)) => {
                assert(fed_until(s, fresh, ids, steps, model.kv, op));
                return Err(ForwardError::Kernel(op));
            },
        };
        proof {
            logits_cover_vocabulary(s, now, p.fed, p.pos, model.kv, logits);
        }
        let loss: S::Num = token_nll(s, logits.as_slice(), p.target);
        let next: S::Sum = s.add_loss(sum, loss);
        proof {
            let step = Fed { kv: model.kv, logits };
            assert(loss_added(s, step.logits@, tokens@[i + 1], sum, next));
            lemma_fed_more(s, fresh, ids, steps, step);
            lemma_loss_more(s, tokens@, steps, sums, step, next);
            steps = steps.push(step);
            sums = sums.push(next);
        }
        sum = next;
        i += 1;
    }
    assert(ids.take(i as int) =~= ids);
    let p: S::Num = s.exp_mean(sum, list.len());
    assert(averaged(s, tokens@, steps, p));
    Ok(p)
}

} // verus!
