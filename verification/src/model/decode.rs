//! Feeding tokens to a model, one decode step after the other.

use vstd::prelude::*;

use crate::kv_cache::KvCache;
use crate::math::kernels::Kernels;
use crate::model::forward::{decoded, forwarded, ForwardError};
use crate::model::forward_laws::{decode_adds_one_row, with_cache};
use crate::model::llama::Model;
use crate::model::weights::{weights_of, WeightError, WeightsView};

verus! {

/// What a decode step leaves: the cache, and the logits.
pub struct Fed<T> {
    pub kv: KvCache<T>,
    pub logits: Vec<T>,
}

/// The cache before step `i`.
pub open spec fn cache_before<'a, T>(m: Model<'a, T>, steps: Seq<Fed<T>>, i: int) -> KvCache<T> {
    if i <= 0 {
        m.kv
    } else {
        steps[i - 1].kv
    }
}

/// Whether the tokens, fed to a model at the positions from zero on, lead
/// through the given steps.
pub open spec fn fed<'a, K: Kernels>(
    k: &K,
    m: Model<'a, K::Num>,
    ids: Seq<u32>,
    steps: Seq<Fed<K::Num>>,
) -> bool {
    &&& steps.len() == ids.len()
    &&& forall|i: int|
        0 <= i < ids.len() ==> decoded(
            k,
            with_cache(m, cache_before(m, steps, i)),
            #[trigger] ids[i],
            i as usize,
            steps[i].kv,
            Ok(steps[i].logits),
        )
}

/// Whether the tokens lead through the given steps up to one at which the
/// arithmetic gave the wrong number of numbers for operation `op`, with the
/// cache `after`.
pub open spec fn fed_until<'a, K: Kernels>(
    k: &K,
    m: Model<'a, K::Num>,
    ids: Seq<u32>,
    steps: Seq<Fed<K::Num>>,
    after: KvCache<K::Num>,
    op: usize,
) -> bool {
    let n = steps.len() as int;
    &&& n < ids.len()
    &&& fed(k, m, ids.take(n), steps)
    &&& decoded(k, with_cache(m, cache_before(m, steps, n)), ids[n], n as usize, after, Err(op))
}

/// Whether a model is another one with all rows dropped.
pub open spec fn restarted<'a, T>(m: Model<'a, T>, fresh: Model<'a, T>) -> bool {
    &&& fresh.cfg == m.cfg
    &&& fresh.tokenizer == m.tokenizer
    &&& fresh.gguf == m.gguf
    &&& fresh.kv.positions() == m.kv.positions()
    &&& fresh.wf()
    &&& fresh.is_fresh()
}

/// Whether the weights of a model do not bind, and its rows were dropped.
pub open spec fn unbound<'a, T>(m: Model<'a, T>, after: KvCache<T>, e: WeightError) -> bool {
    &&& weights_of(m.gguf, m.cfg) == Err::<WeightsView, WeightError>(e)
    &&& restarted(m, with_cache(m, after))
}

/// Where a token was fed, the weights bind.
pub(crate) proof fn lemma_fed_binds<'a, K: Kernels>(
    k: &K,
    m: Model<'a, K::Num>,
    ids: Seq<u32>,
    steps: Seq<Fed<K::Num>>,
)
    requires
        fed(k, m, ids, steps),
        ids.len() > 0,
    ensures
        weights_of(m.gguf, m.cfg) is Ok,
{
    assert(decoded(
        k,
        with_cache(m, cache_before(m, steps, 0)),
        ids[0],
        0,
        steps[0].kv,
        Ok(steps[0].logits),
    ));
    reveal(forwarded);
}

/// One more step.
pub(crate) proof fn lemma_fed_more<'a, K: Kernels>(
    k: &K,
    m: Model<'a, K::Num>,
    ids: Seq<u32>,
    steps: Seq<Fed<K::Num>>,
    step: Fed<K::Num>,
)
    requires
        steps.len() < ids.len(),
        fed(k, m, ids.take(steps.len() as int), steps),
        decoded(
            k,
            with_cache(m, cache_before(m, steps, steps.len() as int)),
            ids[steps.len() as int],
            steps.len() as usize,
            step.kv,
            Ok(step.logits),
        ),
    ensures
        fed(k, m, ids.take(steps.len() as int + 1), steps.push(step)),
{
    let (n, more) = (steps.len() as int, steps.push(step));
    assert forall|i: int| 0 <= i < n + 1 implies decoded(
        k,
        with_cache(m, cache_before(m, more, i)),
        #[trigger] ids.take(n + 1)[i],
        i as usize,
        more[i].kv,
        Ok(more[i].logits),
    ) by {
        assert(cache_before(m, more, i) == cache_before(m, steps, i));
        if i < n {
            assert(ids.take(n)[i] == ids[i]);
        }
    }
}

impl<'a, T: Copy> Model<'a, T> {
    /// Starts a fresh sequence with the given tokens, and returns the logits
    /// behind the last one.
    pub fn prefill<K: Kernels<Num = T>>(&mut self, k: &K, ids: &[u32]) -> (r: Result<
        Vec<T>,
        ForwardError,
    >)
        requires
            old(self).wf(),
            ids@.len() > 0,
            forall|i: int| 0 <= i < ids@.len() ==> (#[trigger] ids@[i]) < old(self).cfg.vocab_size,
        ensures
            final(self).wf(),
            final(self).cfg == old(self).cfg,
            final(self).tokenizer == old(self).tokenizer,
            final(self).gguf == old(self).gguf,
            prefilled(k, *old(self), ids@, final(self).kv, r),
    {
        self.reset();
        let ghost fresh = *self;
        let ghost mut steps: Seq<Fed<T>> = seq![];
        let mut logits: Vec<T> = Vec::new();
        let mut pos: usize = 0;
        while pos < ids.len()
            invariant
                restarted(*old(self), fresh),
                self.wf(),
                self.cfg == fresh.cfg,
                self.tokenizer == fresh.tokenizer,
                self.gguf == fresh.gguf,
                self.kv == cache_before(fresh, steps, pos as int),
                forall|i: int| 0 <= i < ids@.len() ==> (#[trigger] ids@[i]) < self.cfg.vocab_size,
                pos <= ids@.len(),
                steps.len() == pos,
                pos > 0 ==> logits == steps.last().logits,
                fed(k, fresh, ids@.take(pos as int), steps),
            decreases ids@.len() - pos,
        {
            let ghost now = *self;
            assert(now == with_cache(fresh, cache_before(fresh, steps, pos as int)));
            match self.forward(k, ids[pos], pos) {
                Ok(l) => {
                    logits = l;
                },
                Err(ForwardError::Weights(e)) => {
                    proof {
                        if pos > 0 {
                            lemma_fed_binds(k, fresh, ids@.take(pos as int), steps);
                        }
                        assert(with_cache(*old(self), self.kv) == fresh);
                        assert(unbound(*old(self), self.kv, e));
                    }
                    return Err(ForwardError::Weights(e));
                },
                Err(ForwardError::Kernel(op)) => {
                    assert(fed_until(k, fresh, ids@, steps, self.kv, op));
                    return Err(ForwardError::Kernel(op));
                },
            }
            proof {
                let step = Fed { kv: self.kv, logits };
                lemma_fed_more(k, fresh, ids@, steps, step);
                steps = steps.push(step);
            }
            pos += 1;
        }
        assert(ids@.take(pos as int) =~= ids@);
        Ok(logits)
    }
}

/// Whether a sequence that a model starts with the given tokens leaves the
/// cache `after`, and `r`.
pub open spec fn prefilled<'a, K: Kernels>(
    k: &K,
    m: Model<'a, K::Num>,
    ids: Seq<u32>,
    after: KvCache<K::Num>,
    r: Result<Vec<K::Num>, ForwardError>,
) -> bool {
    match r {
        Ok(logits) => exists|fresh: Model<'a, K::Num>, steps: Seq<Fed<K::Num>>| #[trigger]
            fed(k, fresh, ids, steps) && restarted(m, fresh) && steps.last() == (Fed {
                kv: after,
                logits,
            }),
        Err(ForwardError::Weights(e)) => unbound(m, after, e),
        Err(ForwardError::Kernel(op)) => exists|
            fresh: Model<'a, K::Num>,
            steps: Seq<Fed<K::Num>>,
        | #[trigger]
            fed_until(k, fresh, ids, steps, after, op) && restarted(m, fresh),
    }
}

/// The cache holds one row for each token that was fed: from a fresh cache, a
/// layer has `i + 1` rows behind step `i`.
pub proof fn rows_count_fed_tokens<'a, K: Kernels>(
    k: &K,
    m: Model<'a, K::Num>,
    ids: Seq<u32>,
    steps: Seq<Fed<K::Num>>,
    i: int,
    l: int,
)
    requires
        m.wf(),
        m.is_fresh(),
        fed(k, m, ids, steps),
        0 <= i < ids.len(),
        0 <= l < m.kv.layers(),
    ensures
        with_cache(m, steps[i].kv).wf(),
        steps[i].kv.key_buf(l).len() == (i + 1) * m.kv.row_len(),
        steps[i].kv.value_buf(l).len() == (i + 1) * m.kv.row_len(),
    decreases i,
{
    let before = with_cache(m, cache_before(m, steps, i));
    let row = m.kv.row_len();
    if i > 0 {
        rows_count_fed_tokens(k, m, ids, steps, i - 1, l);
    } else {
        assert(m.kv.key_buf(l).len() == 0 && m.kv.value_buf(l).len() == 0);
        assert(0 * row == 0);
    }
    assert(decoded(k, before, ids[i], i as usize, steps[i].kv, Ok(steps[i].logits)));
    decode_adds_one_row(k, before, ids[i], i as usize, steps[i].kv, steps[i].logits, l);
    assert((i + 1) * row == i * row + row) by (nonlinear_arith);
}

/// What was fed stays: the rows behind a step begin with the rows behind every
/// step before it.
pub proof fn fed_rows_stay<'a, K: Kernels>(
    k: &K,
    m: Model<'a, K::Num>,
    ids: Seq<u32>,
    steps: Seq<Fed<K::Num>>,
    i: int,
    j: int,
    l: int,
)
    requires
        m.wf(),
        m.is_fresh(),
        fed(k, m, ids, steps),
        0 <= i <= j < ids.len(),
        0 <= l < m.kv.layers(),
    ensures
        steps[i].kv.key_buf(l).is_prefix_of(steps[j].kv.key_buf(l)),
        steps[i].kv.value_buf(l).is_prefix_of(steps[j].kv.value_buf(l)),
    decreases j,
{
    if i < j {
        fed_rows_stay(k, m, ids, steps, i, j - 1, l);
        rows_count_fed_tokens(k, m, ids, steps, j - 1, l);
        let before = with_cache(m, cache_before(m, steps, j));
        assert(decoded(k, before, ids[j], j as usize, steps[j].kv, Ok(steps[j].logits)));
        decode_adds_one_row(k, before, ids[j], j as usize, steps[j].kv, steps[j].logits, l);
        let (a, b, c) = (
            steps[i].kv.key_buf(l),
            steps[j - 1].kv.key_buf(l),
            steps[j].kv.key_buf(l),
        );
        assert(a =~= c.subrange(0, a.len() as int)) by {
            assert(c.take(b.len() as int).take(a.len() as int) =~= c.take(a.len() as int));
        }
        let (x, y, z) = (
            steps[i].kv.value_buf(l),
            steps[j - 1].kv.value_buf(l),
            steps[j].kv.value_buf(l),
        );
        assert(x =~= z.subrange(0, x.len() as int)) by {
            assert(z.take(y.len() as int).take(x.len() as int) =~= z.take(x.len() as int));
        }
    }
}

} // verus!
