//! Drawing a token: which candidates there are, what share each has, and which
//! of them a drawn number lands on.

use vstd::prelude::*;

use crate::laws::numbers::{is_number, number_below};
use crate::laws::reals::{is_exact, shares_follow_the_numbers};
use crate::laws::steps::{is_softmax, lemma_softmaxed};
use crate::math::ops::{running_totals, softmaxed, totalled};
use crate::sample::{
    are_best, argmax, candidates, drawn, is_best, is_in, kept, lands_on, nucleus, patterns, picked,
    ranks_before, running_rests, sample, seed, seed_from, tempered, Drawing,
};

verus! {

/// Whether a logit is below another: it is the smaller number, or it is none.
pub open spec fn logit_below(x: u32, y: u32) -> bool {
    is_number(y) && (!is_number(x) || number_below(x, y))
}

/// Whether candidate `a` comes before candidate `b`: its logit is greater, or
/// they are equal and its id is smaller.
pub open spec fn outranks(bits: Seq<u32>, a: int, b: int) -> bool {
    logit_below(bits[b], bits[a]) || !logit_below(bits[a], bits[b]) && a < b
}

proof fn lemma_outranks(bits: Seq<u32>, a: int, b: int)
    ensures
        ranks_before(bits, a, b) <==> outranks(bits, a, b),
{
}

/// The greedy choice is the greatest logit, the first of several.
pub proof fn greedy_is_the_greatest(logits: &[u32], id: u32, j: int)
    requires
        call_ensures(argmax, (logits,), id),
        0 <= j < logits@.len(),
    ensures
        id < logits@.len(),
        !logit_below(logits@[id as int], logits@[j]),
        j < id ==> logit_below(logits@[j], logits@[id as int]),
{
    if j != id {
        assert(ranks_before(logits@, id as int, j));
        lemma_outranks(logits@, id as int, j);
    }
}

/// Whether `ids` are the `top_k` greatest candidates, or all, the greatest first.
pub open spec fn are_greatest(bits: Seq<u32>, top_k: Option<usize>, ids: Seq<u32>) -> bool {
    &&& top_k is None ==> ids.len() == bits.len()
    &&& top_k matches Some(k) ==> ids.len() <= k && ids.len() <= bits.len() && (ids.len() == k
        || ids.len() == bits.len())
    &&& forall|i: int| 0 <= i < ids.len() ==> (#[trigger] ids[i]) < bits.len()
    &&& forall|i: int, j: int|
        0 <= i < j < ids.len() ==> outranks(
            bits,
            #[trigger] ids[i] as int,
            #[trigger] ids[j] as int,
        )
    &&& forall|i: int, c: int|
        0 <= i < ids.len() && 0 <= c < bits.len() && !ids.contains(c as u32) ==> #[trigger]
        outranks(bits, ids[i] as int, c)
}

/// The candidates are the greatest logits, the greatest first.
pub proof fn candidates_are_the_greatest(logits: &[u32], top_k: Option<usize>, ids: Vec<u32>)
    requires
        logits@.len() <= 0x1_0000_0000,
        call_ensures(candidates, (logits, top_k), ids),
    ensures
        are_greatest(logits@, top_k, ids@),
{
    lemma_greatest(logits@, top_k, ids@);
}

proof fn lemma_greatest(bits: Seq<u32>, top_k: Option<usize>, ids: Seq<u32>)
    requires
        bits.len() <= 0x1_0000_0000,
        are_best(bits, top_k, ids),
    ensures
        are_greatest(bits, top_k, ids),
{
    assert forall|i: int, j: int| 0 <= i < j < ids.len() implies outranks(
        bits,
        #[trigger] ids[i] as int,
        #[trigger] ids[j] as int,
    ) by {
        assert(ranks_before(bits, ids[i] as int, ids[j] as int));
    }
    assert forall|i: int, c: int|
        0 <= i < ids.len() && 0 <= c < bits.len() && !ids.contains(c as u32) implies #[trigger]
    outranks(bits, ids[i] as int, c) by {
        assert(!is_in(ids, c)) by {
            if is_in(ids, c) {
                let j = choose|j: int| 0 <= j < ids.len() && #[trigger] ids[j] == c;
                assert(ids[j] == c as u32);
            }
        }
        assert(ranks_before(bits, ids[i] as int, c));
    }
}

/// A draw at a temperature of zero, or of no candidates, takes the greatest logit,
/// the first of several, whatever number is drawn.
pub proof fn cold_draw_takes_the_greatest<D: Drawing>(
    d: &D,
    logits: &[D::Num],
    temperature: D::Num,
    top_k: Option<usize>,
    top_p: Option<D::Num>,
    draw: D::Num,
    id: u32,
)
    requires
        !call_ensures(D::is_zero, (d, temperature), false) || top_k == Some(0usize),
        call_ensures(sample::<D>, (d, logits, temperature, top_k, top_p, draw), id),
    ensures
        exists|bits: Seq<u32>| #[trigger] is_greatest_of(d, logits@, bits, id as int),
{
    let (bits, greedy) = choose|bits: Seq<u32>, greedy: bool|
        {
            &&& #[trigger] patterns(d, logits@, bits)
            &&& #[trigger] call_ensures(D::is_zero, (d, temperature), greedy)
            &&& if greedy || top_k == Some(0usize) {
                is_best(bits, id as int)
            } else {
                exists|ids: Seq<u32>| #[trigger]
                    are_best(bits, top_k, ids) && drawn(
                        d,
                        logits@,
                        temperature,
                        top_p,
                        draw,
                        ids,
                        id,
                    ) && is_in(ids, id as int)
            }
        };
    assert forall|j: int| 0 <= j < bits.len() implies !logit_below(
        bits[id as int],
        #[trigger] bits[j],
    ) && (j < id ==> logit_below(bits[j], bits[id as int])) by {
        if j != id {
            assert(ranks_before(bits, id as int, j));
        }
    }
    assert(is_greatest_of(d, logits@, bits, id as int));
}

/// Whether `bits` are the patterns of the logits, and that of `id` is the greatest
/// of them, the first of several.
pub open spec fn is_greatest_of<D: Drawing>(
    d: &D,
    logits: Seq<D::Num>,
    bits: Seq<u32>,
    id: int,
) -> bool {
    &&& bits.len() == logits.len()
    &&& forall|i: int|
        0 <= i < logits.len() ==> call_ensures(D::bits, (d, logits[i]), #[trigger] bits[i])
    &&& 0 <= id < logits.len()
    &&& forall|j: int|
        0 <= j < bits.len() ==> !logit_below(bits[id], #[trigger] bits[j]) && (j < id
            ==> logit_below(bits[j], bits[id]))
}

/// What a draw goes through.
pub struct DrawTrace<T> {
    /// The candidates.
    pub ids: Seq<u32>,
    /// The logit of each, over the temperature.
    pub x: Seq<T>,
    /// The share of each.
    pub shares: Seq<T>,
    /// How many of them are kept.
    pub n: int,
    /// The sums of the shares so far.
    pub sums: Seq<T>,
    /// What is left of the drawn number.
    pub rests: Seq<T>,
    /// Zero.
    pub zero: T,
    /// The place that the drawn number lands on.
    pub j: int,
}

/// Whether a draw goes through these numbers. One quotient is made of the logit
/// of every candidate, by the temperature, and the shares are their softmax. Of
/// these the first are kept whose sum is not below `top_p`, and no more. The
/// drawn number, times the sum of what is kept, lands on the first share that
/// leaves nothing of it, or on the last.
pub open spec fn draw_goes_through<D: Drawing>(
    d: &D,
    logits: Seq<D::Num>,
    temperature: D::Num,
    top_p: Option<D::Num>,
    draw: D::Num,
    t: DrawTrace<D::Num>,
) -> bool {
    &&& t.x.len() == t.ids.len()
    &&& forall|i: int|
        0 <= i < t.ids.len() ==> call_ensures(
            D::quotient,
            (d, logits[t.ids[i] as int], temperature),
            #[trigger] t.x[i],
        )
    &&& is_softmax(d, t.x, t.shares)
    &&& 0 <= t.j < t.n <= t.shares.len()
    &&& top_p is None ==> t.n == t.shares.len()
    &&& top_p matches Some(p) ==> keeps_the_nucleus(d, t.shares, p, t.n)
    &&& t.sums.len() == t.n + 1
    &&& call_ensures(D::zero, (d,), t.sums[0])
    &&& forall|i: int|
        0 <= i < t.n ==> call_ensures(
            D::plus,
            (d, #[trigger] t.sums[i], t.shares[i]),
            t.sums[i + 1],
        )
    &&& call_ensures(D::zero, (d,), t.zero)
    &&& t.rests.len() == t.j + 2
    &&& call_ensures(D::times, (d, draw, t.sums[t.n]), t.rests[0])
    &&& forall|i: int|
        0 <= i <= t.j ==> call_ensures(
            D::minus,
            (d, #[trigger] t.rests[i], t.shares[i]),
            t.rests[i + 1],
        )
    &&& forall|i: int|
        0 < i <= t.j ==> call_ensures(D::below, (d, t.zero, #[trigger] t.rests[i]), true)
    &&& t.j < t.n - 1 ==> call_ensures(D::below, (d, t.zero, t.rests[t.j + 1]), false)
}

/// Whether the first `n` shares are the fewest, but at least one, whose sum is
/// not below `p`, or all.
pub open spec fn keeps_the_nucleus<D: Drawing>(
    d: &D,
    shares: Seq<D::Num>,
    p: D::Num,
    n: int,
) -> bool {
    exists|sums: Seq<D::Num>| #[trigger] nucleus_sums(d, shares, p, n, sums)
}

/// The sums by which shares are kept.
pub open spec fn nucleus_sums<D: Drawing>(
    d: &D,
    shares: Seq<D::Num>,
    p: D::Num,
    n: int,
    sums: Seq<D::Num>,
) -> bool {
    &&& 0 < n <= shares.len()
    &&& sums.len() == n + 1
    &&& call_ensures(D::zero, (d,), sums[0])
    &&& forall|i: int|
        0 <= i < n ==> call_ensures(D::plus, (d, #[trigger] sums[i], shares[i]), sums[i + 1])
    &&& forall|i: int| 0 < i < n ==> call_ensures(D::below, (d, #[trigger] sums[i], p), true)
    &&& n < shares.len() ==> call_ensures(D::below, (d, sums[n], p), false)
}

/// Whether a draw of a token goes through these numbers, from the patterns of
/// the logits on.
pub open spec fn sample_goes_through<D: Drawing>(
    d: &D,
    logits: Seq<D::Num>,
    temperature: D::Num,
    top_k: Option<usize>,
    top_p: Option<D::Num>,
    draw: D::Num,
    bits: Seq<u32>,
    t: DrawTrace<D::Num>,
) -> bool {
    &&& bits.len() == logits.len()
    &&& forall|i: int|
        0 <= i < logits.len() ==> call_ensures(D::bits, (d, logits[i]), #[trigger] bits[i])
    &&& are_greatest(bits, top_k, t.ids)
    &&& draw_goes_through(d, logits, temperature, top_p, draw, t)
}

/// A draw at a temperature that is not zero is by the softmax of one quotient per
/// candidate.
pub proof fn draw_is_by_share<D: Drawing>(
    d: &D,
    logits: &[D::Num],
    temperature: D::Num,
    top_k: Option<usize>,
    top_p: Option<D::Num>,
    draw: D::Num,
    id: u32,
)
    requires
        logits@.len() <= 0x1_0000_0000,
        !call_ensures(D::is_zero, (d, temperature), true),
        top_k != Some(0usize),
        call_ensures(sample::<D>, (d, logits, temperature, top_k, top_p, draw), id),
    ensures
        exists|bits: Seq<u32>, t: DrawTrace<D::Num>|
            #[trigger] sample_goes_through(
                d,
                logits@,
                temperature,
                top_k,
                top_p,
                draw,
                bits,
                t,
            ) && t.ids[t.j] == id,
{
    let (bits, greedy) = choose|bits: Seq<u32>, greedy: bool|
        {
            &&& #[trigger] patterns(d, logits@, bits)
            &&& #[trigger] call_ensures(D::is_zero, (d, temperature), greedy)
            &&& if greedy || top_k == Some(0usize) {
                is_best(bits, id as int)
            } else {
                exists|ids: Seq<u32>| #[trigger]
                    are_best(bits, top_k, ids) && drawn(
                        d,
                        logits@,
                        temperature,
                        top_p,
                        draw,
                        ids,
                        id,
                    ) && is_in(ids, id as int)
            }
        };
    assert(!greedy);
    let ids = choose|ids: Seq<u32>| #[trigger]
        are_best(bits, top_k, ids) && drawn(
            d,
            logits@,
            temperature,
            top_p,
            draw,
            ids,
            id,
        ) && is_in(ids, id as int);
    lemma_greatest(bits, top_k, ids);
    let t = lemma_draw(d, logits@, temperature, top_p, draw, ids, id);
    assert(sample_goes_through(d, logits@, temperature, top_k, top_p, draw, bits, t));
}

proof fn lemma_draw<D: Drawing>(
    d: &D,
    logits: Seq<D::Num>,
    temperature: D::Num,
    top_p: Option<D::Num>,
    draw: D::Num,
    ids: Seq<u32>,
    id: u32,
) -> (t: DrawTrace<D::Num>)
    requires
        drawn(d, logits, temperature, top_p, draw, ids, id),
    ensures
        t.ids == ids,
        draw_goes_through(d, logits, temperature, top_p, draw, t),
        t.ids[t.j] == id,
{
    let (x, shares, n, j) = choose|x: Seq<D::Num>, shares: Seq<D::Num>, n: int, j: int|
        {
            &&& #[trigger] tempered(d, logits, temperature, ids, x)
            &&& #[trigger] softmaxed(d, x, shares)
            &&& #[trigger] kept(d, shares, top_p, n)
            &&& #[trigger] picked(d, shares.take(n), draw, j)
            &&& ids[j] == id
        };
    lemma_softmaxed(d, x, shares);
    assert(shares.len() == x.len());
    assert(0 <= n <= shares.len());
    let some = shares.take(n);
    let (total, start, zero) = choose|total: D::Num, start: D::Num, zero: D::Num|
        {
            &&& #[trigger] totalled(d, some, total)
            &&& call_ensures(D::times, (d, draw, total), start)
            &&& call_ensures(D::zero, (d,), zero)
            &&& #[trigger] lands_on(d, some, start, zero, j)
        };
    let sums = choose|sums: Seq<D::Num>| #[trigger]
        running_totals(d, some, sums) && sums.last() == total;
    let rests = choose|rests: Seq<D::Num>|
        {
            &&& #[trigger] running_rests(d, some, start, rests)
            &&& rests.len() == j + 2
            &&& forall|i: int|
                0 < i <= j ==> call_ensures(D::below, (d, zero, #[trigger] rests[i]), true)
            &&& j < some.len() - 1 ==> call_ensures(D::below, (d, zero, rests[j + 1]), false)
        };
    let t = DrawTrace { ids, x, shares, n, sums, rests, zero, j };
    assert forall|i: int| 0 <= i < n implies call_ensures(
        D::plus,
        (d, #[trigger] sums[i], shares[i]),
        sums[i + 1],
    ) by {
        assert(some[i] == shares[i]);
    }
    assert forall|i: int| 0 <= i <= j implies call_ensures(
        D::minus,
        (d, #[trigger] rests[i], shares[i]),
        rests[i + 1],
    ) by {
        assert(some[i] == shares[i]);
    }
    if let Some(p) = top_p {
        assert(nucleus(d, shares, p, n));
        let all = choose|all: Seq<D::Num>|
            {
                &&& #[trigger] running_totals(d, some, all)
                &&& forall|i: int|
                    0 < i < n ==> call_ensures(D::below, (d, #[trigger] all[i], p), true)
                &&& n < shares.len() ==> call_ensures(D::below, (d, all[n], p), false)
            };
        assert forall|i: int| 0 <= i < n implies call_ensures(
            D::plus,
            (d, #[trigger] all[i], shares[i]),
            all[i + 1],
        ) by {
            assert(some[i] == shares[i]);
        }
        assert(nucleus_sums(d, shares, p, n, all));
    }
    t
}

/// Over the real numbers the shares of two candidates are to each other as the
/// exponentials of their logits over the temperature: it is their difference over
/// the temperature, once, that tells how much more likely the one is.
pub proof fn shares_follow_the_logits<D: Drawing>(
    d: &D,
    logits: Seq<D::Num>,
    temperature: D::Num,
    top_p: Option<D::Num>,
    draw: D::Num,
    t: DrawTrace<D::Num>,
    val: spec_fn(D::Num) -> real,
    e: spec_fn(real) -> real,
    i: int,
    j: int,
)
    requires
        is_exact(d, val, e),
        val(temperature) != 0real,
        draw_goes_through(d, logits, temperature, top_p, draw, t),
        0 <= i < t.ids.len(),
        0 <= j < t.ids.len(),
    ensures
        val(t.shares[i]) * e(val(logits[t.ids[j] as int]) / val(temperature)) == val(t.shares[j])
            * e(val(logits[t.ids[i] as int]) / val(temperature)),
{
    shares_follow_the_numbers(d, t.x, t.shares, val, e, i, j);
    assert(call_ensures(D::quotient, (d, logits[t.ids[i] as int], temperature), t.x[i]));
    assert(call_ensures(D::quotient, (d, logits[t.ids[j] as int], temperature), t.x[j]));
}

/// The seed is the one that was asked for, wherever one was.
pub proof fn asked_seed_is_taken(asked: Option<u64>, drawn: u64, s: u64, r: u64)
    requires
        call_ensures(seed_from, (asked, drawn), s),
        call_ensures(seed, (asked,), r),
    ensures
        asked matches Some(x) ==> s == x && r == x,
        asked is None ==> s == drawn,
{
}

} // verus!
