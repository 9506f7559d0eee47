//! Runs: which token is fed at which position, what is scored, when a run ends,
//! and what of its text is shown.

use vstd::prelude::*;

use crate::eval::{
    averaged, exp_sums, exp_total, loss_added, loss_sums, nll_of, perplexity, predictions,
    scored_tokens, token_nll, Prediction, Scoring,
};
use crate::generate::{flush_new, outcome, prompt_ids, Next, Run};
use crate::kv_cache::KvCache;
use crate::laws::forward::{
    decoding_is_a_llama_pass, gives_wrong_length, is_pass, lemma_failed_step, states,
};
use crate::math::kernels::Kernels;
use crate::math::ops::{running_tops, topped};
use crate::model::decode::{cache_before, fed, fed_until, restarted, unbound, Fed};
use crate::model::forward::{decoded, ForwardError};
use crate::model::forward_laws::with_cache;
use crate::model::llama::Model;
use crate::model::plan::Mat;
use crate::model::weights::{weights_of, WeightError, WeightsView};
use crate::tokenizer::Tokenizer;

verus! {

/// Whether no row is in a cache of `n` layers.
pub open spec fn is_bare<T>(kv: KvCache<T>, n: int) -> bool {
    forall|l: int|
        0 <= l < n ==> (#[trigger] kv.key_buf(l)).len() == 0 && kv.value_buf(l).len() == 0
}

/// Whether the tokens are fed to a model one after the other: from a cache
/// without rows, token `i` at position `i`, each step from the cache that the one
/// before it left.
pub open spec fn is_feeding<'a, K: Kernels>(
    k: &K,
    m: Model<'a, K::Num>,
    ids: Seq<u32>,
    caches: Seq<KvCache<K::Num>>,
    logits: Seq<Seq<K::Num>>,
) -> bool {
    &&& caches.len() == ids.len() + 1
    &&& logits.len() == ids.len()
    &&& is_bare(caches[0], m.cfg.n_layer as int)
    &&& forall|i: int|
        0 <= i < ids.len() ==> is_pass(
            k,
            m.gguf,
            m.cfg,
            #[trigger] ids[i],
            i as usize,
            caches[i],
            caches[i + 1],
            logits[i],
        )
}

proof fn lemma_feeding<'a, K: Kernels>(
    k: &K,
    m: Model<'a, K::Num>,
    fresh: Model<'a, K::Num>,
    ids: Seq<u32>,
    steps: Seq<Fed<K::Num>>,
)
    requires
        states(m.gguf, m.cfg),
        restarted(m, fresh),
        fed(k, fresh, ids, steps),
    ensures
        is_feeding(
            k,
            m,
            ids,
            Seq::new(ids.len() + 1, |i: int| cache_before(fresh, steps, i)),
            Seq::new(ids.len(), |i: int| steps[i].logits@),
        ),
{
    let caches = Seq::new(ids.len() + 1, |i: int| cache_before(fresh, steps, i));
    let logits = Seq::new(ids.len(), |i: int| steps[i].logits@);
    assert forall|i: int| 0 <= i < ids.len() implies is_pass(
        k,
        m.gguf,
        m.cfg,
        #[trigger] ids[i],
        i as usize,
        caches[i],
        caches[i + 1],
        logits[i],
    ) by {
        lemma_fed_pass(k, fresh, ids, steps, i);
        assert(caches[i + 1] == steps[i].kv);
    }
    assert forall|l: int| 0 <= l < m.cfg.n_layer implies (#[trigger] caches[0].key_buf(l)).len()
        == 0 && caches[0].value_buf(l).len() == 0 by {
        assert(caches[0] == fresh.kv);
        assert(fresh.kv.key_buf(l).len() == 0);
    }
}

proof fn lemma_fed_pass<'a, K: Kernels>(
    k: &K,
    m: Model<'a, K::Num>,
    ids: Seq<u32>,
    steps: Seq<Fed<K::Num>>,
    i: int,
)
    requires
        m.wf(),
        states(m.gguf, m.cfg),
        fed(k, m, ids, steps),
        0 <= i < ids.len(),
    ensures
        is_pass(
            k,
            m.gguf,
            m.cfg,
            ids[i],
            i as usize,
            cache_before(m, steps, i),
            steps[i].kv,
            steps[i].logits@,
        ),
        with_cache(m, steps[i].kv).wf(),
    decreases i,
{
    if i > 0 {
        lemma_fed_pass(k, m, ids, steps, i - 1);
    }
    let before = with_cache(m, cache_before(m, steps, i));
    assert(before.wf());
    assert(decoded(k, before, ids[i], i as usize, steps[i].kv, Ok(steps[i].logits)));
    decoding_is_a_llama_pass(k, before, ids[i], i as usize, steps[i].kv, steps[i].logits);
}

/// A prompt is fed from the start: its tokens in order, at the positions from
/// zero on, and the logits are those behind the last.
pub proof fn prompt_is_fed_in_order<'a, K: Kernels>(
    m: &mut Model<'a, K::Num>,
    k: &K,
    ids: &[u32],
    out: Vec<K::Num>,
)
    requires
        states(old(m).gguf, old(m).cfg),
        ids@.len() > 0,
        call_ensures(Model::<'a, K::Num>::prefill::<K>, (m, k, ids), Ok(out)),
    ensures
        exists|caches: Seq<KvCache<K::Num>>, logits: Seq<Seq<K::Num>>|
            #[trigger] is_feeding(k, *old(m), ids@, caches, logits) && logits.last() == out@
                && caches.last() == final(m).kv,
{
    let (fresh, steps) = choose|fresh: Model<'a, K::Num>, steps: Seq<Fed<K::Num>>| #[trigger]
        fed(k, fresh, ids@, steps) && restarted(*old(m), fresh) && steps.last() == (Fed {
            kv: final(m).kv,
            logits: out,
        });
    lemma_feeding(k, *old(m), fresh, ids@, steps);
    let caches = Seq::new(ids@.len() + 1, |i: int| cache_before(fresh, steps, i));
    let logits = Seq::new(ids@.len(), |i: int| steps[i].logits@);
    assert(is_feeding(k, *old(m), ids@, caches, logits));
    assert(logits.last() == steps.last().logits@);
}

/// Whether `loss` is the loss of a target: `tops` are the largest logits so far,
/// `sums` the sums of the exponentials below the largest so far, over all logits.
pub open spec fn loss_of<S: Scoring>(
    s: &S,
    logits: Seq<S::Num>,
    target: int,
    tops: Seq<S::Num>,
    sums: Seq<S::Sum>,
    loss: S::Num,
) -> bool {
    let n = logits.len() as int;
    &&& tops.len() == n + 1
    &&& call_ensures(S::lowest, (s,), tops[0])
    &&& forall|i: int|
        0 <= i < n ==> call_ensures(S::larger, (s, tops[i], #[trigger] logits[i]), tops[i + 1])
    &&& sums.len() == n + 1
    &&& call_ensures(S::nothing, (s,), sums[0])
    &&& forall|i: int|
        0 <= i < n ==> call_ensures(
            S::add_exp,
            (s, sums[i], #[trigger] logits[i], tops[n]),
            sums[i + 1],
        )
    &&& call_ensures(S::loss, (s, logits[target], tops[n], sums[n]), loss)
}

/// Whether `loss` is the loss of a target.
pub open spec fn is_loss<S: Scoring>(
    s: &S,
    logits: Seq<S::Num>,
    target: int,
    loss: S::Num,
) -> bool {
    exists|tops: Seq<S::Num>, sums: Seq<S::Sum>| #[trigger]
        loss_of(s, logits, target, tops, sums, loss)
}

/// The loss of a token is taken over all logits, and is that of its own.
pub proof fn loss_is_over_all_logits<S: Scoring>(
    s: &S,
    logits: &[S::Num],
    target: u32,
    loss: S::Num,
)
    requires
        call_ensures(token_nll::<S>, (s, logits, target), loss),
    ensures
        is_loss(s, logits@, target as int, loss),
{
    lemma_loss(s, logits@, target as int, loss);
}

proof fn lemma_loss<S: Scoring>(s: &S, logits: Seq<S::Num>, target: int, loss: S::Num)
    requires
        nll_of(s, logits, target, loss),
    ensures
        is_loss(s, logits, target, loss),
{
    let (top, sum) = choose|top: S::Num, sum: S::Sum| #[trigger]
        topped(s, logits, top) && #[trigger] exp_total(s, logits, top, sum) && call_ensures(
            S::loss,
            (s, logits[target], top, sum),
            loss,
        );
    let tops = choose|tops: Seq<S::Num>| #[trigger]
        running_tops(s, logits, tops) && tops.last() == top;
    let sums = choose|sums: Seq<S::Sum>| #[trigger]
        exp_sums(s, logits, top, sums) && sums.last() == sum;
    assert(loss_of(s, logits, target, tops, sums, loss));
}

/// Whether the tokens of a text are scored so: every token but the last is fed,
/// the logits behind it are held against the token that follows it, and the mean
/// is over as many losses as there are.
pub open spec fn is_scoring<'a, S: Scoring>(
    s: &S,
    m: Model<'a, S::Num>,
    tokens: Seq<u32>,
    caches: Seq<KvCache<S::Num>>,
    logits: Seq<Seq<S::Num>>,
    losses: Seq<S::Num>,
    sums: Seq<S::Sum>,
    p: S::Num,
) -> bool {
    let n = tokens.len() - 1;
    &&& is_feeding(s, m, tokens.take(n), caches, logits)
    &&& losses.len() == n
    &&& forall|i: int|
        0 <= i < n ==> is_loss(s, logits[i], tokens[i + 1] as int, #[trigger] losses[i])
    &&& sums.len() == n + 1
    &&& call_ensures(S::nothing, (s,), sums[0])
    &&& forall|i: int|
        0 <= i < n ==> call_ensures(
            S::add_loss,
            (s, sums[i], #[trigger] losses[i]),
            sums[i + 1],
        )
    &&& call_ensures(S::exp_mean, (s, sums[n], n as usize), p)
}

/// The perplexity holds every prediction against the token that came next.
pub proof fn every_next_token_is_scored<'a, S: Scoring>(
    s: &S,
    m: &mut Model<'a, S::Num>,
    tokens: &[u32],
    p: S::Num,
)
    requires
        states(old(m).gguf, old(m).cfg),
        tokens@.len() >= 2,
        call_ensures(perplexity::<S>, (s, m, tokens), Ok(p)),
    ensures
        exists|
            caches: Seq<KvCache<S::Num>>,
            logits: Seq<Seq<S::Num>>,
            losses: Seq<S::Num>,
            sums: Seq<S::Sum>,
        | #[trigger]
            is_scoring(s, *old(m), tokens@, caches, logits, losses, sums, p),
{
    let ids = tokens@.drop_last();
    let n = tokens@.len() - 1;
    assert(ids =~= tokens@.take(n));
    let (fresh, steps) = choose|fresh: Model<'a, S::Num>, steps: Seq<Fed<S::Num>>| #[trigger]
        fed(s, fresh, ids, steps) && restarted(*old(m), fresh) && steps.last().kv == final(m).kv
            && averaged(s, tokens@, steps, p);
    lemma_feeding(s, *old(m), fresh, ids, steps);
    let caches = Seq::new(ids.len() + 1, |i: int| cache_before(fresh, steps, i));
    let logits = Seq::new(ids.len(), |i: int| steps[i].logits@);
    let sums = choose|sums: Seq<S::Sum>| #[trigger]
        loss_sums(s, tokens@, steps, sums) && call_ensures(
            S::exp_mean,
            (s, sums.last(), steps.len() as usize),
            p,
        );
    let losses = Seq::new(
        n as nat,
        |i: int|
            choose|loss: S::Num| #[trigger]
                nll_of(s, steps[i].logits@, tokens@[i + 1] as int, loss) && call_ensures(
                    S::add_loss,
                    (s, sums[i], loss),
                    sums[i + 1],
                ),
    );
    assert forall|i: int| 0 <= i < n implies is_loss(
        s,
        logits[i],
        tokens@[i + 1] as int,
        #[trigger] losses[i],
    ) && call_ensures(S::add_loss, (s, sums[i], losses[i]), sums[i + 1]) by {
        assert(loss_added(s, steps[i].logits@, tokens@[i + 1], sums[i], sums[i + 1]));
        lemma_loss(s, steps[i].logits@, tokens@[i + 1] as int, losses[i]);
    }
    assert(is_scoring(s, *old(m), tokens@, caches, logits, losses, sums, p));
}

/// A prompt is fed, and a text scored, to the end wherever the weights bind and the
/// arithmetic gives every product its length. Where the weights do not bind, that
/// is what is said, and no row is left in the cache.
pub proof fn runs_fail_only_for_cause<'a, S: Scoring>(
    s: &S,
    m: &mut Model<'a, S::Num>,
    ids: &[u32],
    fed: Result<Vec<S::Num>, ForwardError>,
    o: &mut Model<'a, S::Num>,
    tokens: &[u32],
    p: Result<S::Num, ForwardError>,
    l: int,
)
    requires
        old(m).wf(),
        old(o).wf(),
        ids@.len() > 0,
        tokens@.len() >= 2,
        call_ensures(Model::<'a, S::Num>::prefill::<S>, (m, s, ids), fed),
        call_ensures(perplexity::<S>, (s, o, tokens), p),
        0 <= l < old(m).cfg.n_layer,
    ensures
        weights_of(old(m).gguf, old(m).cfg) is Ok && (forall|mat: Mat|
            !#[trigger] gives_wrong_length(s, mat)) ==> fed is Ok,
        weights_of(old(o).gguf, old(o).cfg) is Ok && (forall|mat: Mat|
            !#[trigger] gives_wrong_length(s, mat)) ==> p is Ok,
        fed matches Err(ForwardError::Weights(e)) ==> weights_of(old(m).gguf, old(m).cfg) == Err::<
            WeightsView,
            WeightError,
        >(e) && final(m).kv.key_buf(l).len() == 0 && final(m).kv.value_buf(l).len() == 0,
        p matches Err(ForwardError::Weights(e)) ==> weights_of(old(o).gguf, old(o).cfg) == Err::<
            WeightsView,
            WeightError,
        >(e),
{
    if let Err(ForwardError::Kernel(op)) = fed {
        let (fresh, steps) = choose|fresh: Model<'a, S::Num>, steps: Seq<Fed<S::Num>>| #[trigger]
            fed_until(s, fresh, ids@, steps, final(m).kv, op) && restarted(*old(m), fresh);
        lemma_failed_run(s, fresh, ids@, steps, final(m).kv, op);
    }
    if let Err(ForwardError::Kernel(op)) = p {
        let list = tokens@.drop_last();
        let (fresh, steps) = choose|fresh: Model<'a, S::Num>, steps: Seq<Fed<S::Num>>| #[trigger]
            fed_until(s, fresh, list, steps, final(o).kv, op) && restarted(*old(o), fresh);
        lemma_failed_run(s, fresh, list, steps, final(o).kv, op);
    }
    if let Err(ForwardError::Weights(e)) = fed {
        assert(unbound(*old(m), final(m).kv, e));
        assert(with_cache(*old(m), final(m).kv).is_fresh());
        assert(final(m).kv.key_buf(l) == Seq::<S::Num>::empty());
    }
}

proof fn lemma_failed_run<'a, K: Kernels>(
    k: &K,
    m: Model<'a, K::Num>,
    ids: Seq<u32>,
    steps: Seq<Fed<K::Num>>,
    after: KvCache<K::Num>,
    op: usize,
)
    requires
        m.wf(),
        fed_until(k, m, ids, steps, after, op),
    ensures
        exists|mat: Mat| #[trigger] gives_wrong_length(k, mat),
{
    let n = steps.len() as int;
    let before = with_cache(m, cache_before(m, steps, n));
    lemma_failed_step(k, before, ids[n], n as usize, after, op);
}

/// Prediction `i` feeds token `i` at position `i` and awaits the one behind it.
pub proof fn predictions_await_the_next<'a>(tokens: &[u32], v: Vec<Prediction>, i: int)
    requires
        tokens@.len() >= 2,
        call_ensures(predictions, (tokens,), v),
    ensures
        v@.len() == tokens@.len() - 1,
        0 <= i < v@.len() ==> v@[i].pos == i && v@[i].fed == tokens@[i] && v@[i].target
            == tokens@[i + 1],
{
    assert(tokens@.len() == tokens.len());
}

/// What is scored of a text, and what a prompt is: its ids behind the first
/// special token, which scoring always puts there, and a prompt where the
/// tokenizer asks for it. A text without ids is not scored, and no prompt at all
/// is none.
pub proof fn texts_become_ids(
    t: &Tokenizer,
    text: &str,
    scored: Option<Vec<u32>>,
    prompt: Option<Vec<u32>>,
    ids: Vec<u32>,
    bos: u32,
    asks: bool,
)
    requires
        call_ensures(Tokenizer::encode, (t, text), ids),
        call_ensures(Tokenizer::bos, (t,), bos),
        call_ensures(Tokenizer::add_bos, (t,), asks),
        call_ensures(scored_tokens, (t, text), scored),
        call_ensures(prompt_ids, (t, text), prompt),
    ensures
        scored is None <==> ids@.len() == 0,
        scored matches Some(v) ==> v@.len() == ids@.len() + 1 && v@[0] == bos && v@.skip(1) == ids@,
        prompt is None <==> !asks && ids@.len() == 0,
        prompt matches Some(v) ==> if asks {
            v@.len() == ids@.len() + 1 && v@[0] == bos && v@.skip(1) == ids@
        } else {
            v@ == ids@
        },
{
    if let Some(v) = scored {
        assert(v@.skip(1) =~= ids@);
    }
    if let Some(v) = prompt {
        if asks {
            assert(v@.skip(1) =~= ids@);
        } else {
            assert(v@ =~= ids@);
        }
    }
}

/// A run starts behind its prompt, with nothing made and nothing shown. It has
/// room for as many tokens as were asked for, but for no more than there are
/// positions left, and asks for a token as long as there is room.
pub proof fn runs_keep_to_their_room(
    prompt_len: usize,
    n: usize,
    context: usize,
    eos: u32,
    r: Run,
    a: Next,
)
    requires
        call_ensures(Run::start, (prompt_len, n, context, eos), r),
        call_ensures(Run::next, (&r,), a),
    ensures
        r.made().len() == 0,
        r.position() == prompt_len,
        r.end_token() == eos,
        r.shown() == 0,
        0 <= r.room() <= n,
        r.room() > 0 ==> prompt_len + r.room() <= context,
        r.room() < n ==> prompt_len + r.room() >= context,
        a == Next::Sample <==> n > 0 && prompt_len < context,
{
}

/// A sampled token is made part of the output, and fed at the position behind
/// the last one, unless it is the one that ends the run: that one is not output,
/// and nothing is asked for behind it.
pub proof fn tokens_are_accepted_in_order(r: &mut Run, token: u32, fed: Option<usize>, a: Next)
    requires
        old(r).room() > 0,
        call_ensures(Run::accept, (r, token), fed),
        call_ensures(Run::next, (&*final(r),), a),
    ensures
        token == old(r).end_token() ==> fed is None && final(r).made() == old(r).made() && a
            == Next::Stop,
        token != old(r).end_token() ==> {
            &&& fed == Some(old(r).position() as usize)
            &&& final(r).made().len() == old(r).made().len() + 1
            &&& final(r).made().last() == token
            &&& final(r).made().drop_last() == old(r).made()
            &&& final(r).position() == old(r).position() + 1
            &&& final(r).room() == old(r).room() - 1
            &&& (a == Next::Stop <==> old(r).room() == 1)
        },
        final(r).end_token() == old(r).end_token(),
{
    if token != old(r).end_token() {
        assert(final(r).made().drop_last() =~= old(r).made());
    }
}

/// What comes of a run is the longest start of the sampled tokens that has no
/// ending token in it and for which there is room.
pub proof fn outcome_is_the_longest(sampled: Seq<u32>, eos: u32, room: int)
    requires
        room >= 0,
    ensures
        ({
            let n = outcome(sampled, eos, room).len() as int;
            &&& n <= room && n <= sampled.len()
            &&& outcome(sampled, eos, room) == sampled.take(n)
            &&& forall|i: int| 0 <= i < n ==> #[trigger] sampled[i] != eos
            &&& n == room || n == sampled.len() || sampled[n] == eos
        }),
    decreases sampled.len(),
{
    let all = outcome(sampled, eos, room);
    if sampled.len() > 0 && room > 0 && sampled[0] != eos {
        let rest = sampled.drop_first();
        outcome_is_the_longest(rest, eos, room - 1);
        let n = all.len() as int;
        assert(forall|i: int| 0 < i < sampled.len() ==> #[trigger] sampled[i] == rest[i - 1]);
        assert(all =~= sampled.take(n));
    } else {
        assert(all =~= sampled.take(0));
    }
}

/// What is shown of a text is all of it, behind what was shown before, but for a
/// replacement character at the very end: another token may complete it.
pub proof fn flush_shows_what_is_complete(text: &str, printed: usize, part: String, end: usize)
    requires
        call_ensures(flush_new, (text, printed), (part, end)),
    ensures
        text@.len() > 0 && text@.last() == '\u{FFFD}' ==> end == text@.len() - 1,
        text@.len() == 0 || text@.last() != '\u{FFFD}' ==> end == text@.len(),
        printed <= end ==> text@.take(printed as int) + part@ == text@.take(end as int),
        printed > end ==> part@.len() == 0,
{
    if printed <= end {
        assert(text@.take(printed as int) + part@ =~= text@.take(end as int));
    }
}

/// A run shows what is complete since it last showed something.
pub proof fn run_shows_what_is_complete(r: &mut Run, text: &str, part: String)
    requires
        0 <= old(r).shown(),
        call_ensures(Run::flush, (r, text), part),
    ensures
        text@.len() > 0 && text@.last() == '\u{FFFD}' ==> final(r).shown() == text@.len() - 1,
        text@.len() == 0 || text@.last() != '\u{FFFD}' ==> final(r).shown() == text@.len(),
        old(r).shown() <= final(r).shown() ==> text@.take(old(r).shown()) + part@ == text@.take(
            final(r).shown(),
        ),
        old(r).shown() > final(r).shown() ==> part@.len() == 0,
        final(r).made() == old(r).made(),
        final(r).position() == old(r).position(),
        final(r).room() == old(r).room(),
        final(r).end_token() == old(r).end_token(),
{
    if old(r).shown() <= final(r).shown() {
        assert(text@.take(old(r).shown()) + part@ =~= text@.take(final(r).shown()));
    }
}

} // verus!
