//! Token sampling from logits.
//!
//! Candidates are ranked by the bit patterns of their logits, which have the
//! order of single-precision numbers.

use vstd::prelude::*;

use crate::bits::{order_key, order_of};
use crate::math::kernels::Kernels;
use crate::math::ops::{running_totals, softmax, softmaxed, total_of, totalled};

verus! {

/// `rand::random` draws a number from the thread's generator, which the
/// operating system seeds: nothing holds of one outcome that does not hold of
/// every number.
#[verifier::external_body]
fn random_number() -> (n: u64) {
    rand::random()
}

/// The seed of a run: the one that was asked for, or else a drawn one.
pub fn seed_from(asked: Option<u64>, drawn: u64) -> (seed: u64)
    ensures
        seed == (match asked {
            Some(s) => s,
            None => drawn,
        }),
{
    match asked {
        Some(s) => s,
        None => drawn,
    }
}

/// The seed of a run: the one that was asked for, or else a random one.
pub fn seed(asked: Option<u64>) -> (seed: u64)
    ensures
        asked matches Some(s) ==> seed == s,
{
    match asked {
        Some(s) => s,
        None => seed_from(None, random_number()),
    }
}

/// Whether candidate `a` ranks before candidate `b`: the greater logit is
/// first, and among equal ones the smaller id.
pub open spec fn ranks_before(logits: Seq<u32>, a: int, b: int) -> bool {
    let (x, y) = (order_key(logits[a]), order_key(logits[b]));
    x > y || x == y && a < b
}

/// Whether `id` is the greedy choice.
pub open spec fn is_best(logits: Seq<u32>, id: int) -> bool {
    &&& 0 <= id < logits.len()
    &&& forall|j: int|
        0 <= j < logits.len() && j != id ==> #[trigger] ranks_before(logits, id, j)
}

/// Greedy: index of the maximum logit; of several, the first.
pub fn argmax(logits: &[u32]) -> (id: u32)
    requires
        0 < logits@.len() <= 0x1_0000_0000,
    ensures
        is_best(logits@, id as int),
{
    let mut best: usize = 0;
    let mut key: i64 = order_of(logits[0]);
    let mut i: usize = 1;
    while i < logits.len()
        invariant
            1 <= i <= logits@.len() <= 0x1_0000_0000,
            best < i,
            key == order_key(logits@[best as int]),
            forall|j: int|
                0 <= j < i && j != best ==> #[trigger] ranks_before(logits@, best as int, j),
        decreases logits@.len() - i,
    {
        let k: i64 = order_of(logits[i]);
        let ghost before = best as int;
        if k > key {
            best = i;
            key = k;
            proof {
                assert forall|j: int| 0 <= j < i + 1 && j != best implies #[trigger] ranks_before(
                    logits@,
                    best as int,
                    j,
                ) by {
                    if j != before {
                        assert(ranks_before(logits@, before, j));
                    }
                }
            }
        }
        i += 1;
    }
    best as u32
}

/// Whether a list of candidates is in order of rank.
pub open spec fn is_ranked(logits: Seq<u32>, ids: Seq<u32>) -> bool {
    forall|i: int, j: int|
        0 <= i < j < ids.len() ==> ranks_before(logits, ids[i] as int, ids[j] as int)
}

/// Whether candidate `c` is in a list.
pub open spec fn is_in(ids: Seq<u32>, c: int) -> bool {
    exists|j: int| 0 <= j < ids.len() && #[trigger] ids[j] == c
}

/// Whether a list holds the candidates from `lo` to before `hi`, ranked.
spec fn ranks_range(logits: Seq<u32>, ids: Seq<u32>, lo: int, hi: int) -> bool {
    &&& ids.len() == hi - lo
    &&& is_ranked(logits, ids)
    &&& forall|i: int| 0 <= i < ids.len() ==> lo <= #[trigger] ids[i] < hi
    &&& forall|c: int| lo <= c < hi ==> #[trigger] is_in(ids, c)
}

/// Merges two ranked lists.
fn merge_ranked(
    logits: &[u32],
    a: &Vec<u32>,
    b: &Vec<u32>,
    Ghost(lo): Ghost<int>,
    Ghost(mid): Ghost<int>,
    Ghost(hi): Ghost<int>,
) -> (r: Vec<u32>)
    requires
        0 <= lo <= mid <= hi <= logits@.len(),
        ranks_range(logits@, a@, lo, mid),
        ranks_range(logits@, b@, mid, hi),
    ensures
        ranks_range(logits@, r@, lo, hi),
{
    let mut r: Vec<u32> = Vec::new();
    let (mut i, mut j): (usize, usize) = (0, 0);
    while i < a.len() || j < b.len()
        invariant
            0 <= lo <= mid <= hi <= logits@.len(),
            ranks_range(logits@, a@, lo, mid),
            ranks_range(logits@, b@, mid, hi),
            i <= a@.len(),
            j <= b@.len(),
            r@.len() == i + j,
            is_ranked(logits@, r@),
            forall|k: int| 0 <= k < r@.len() ==> lo <= #[trigger] r@[k] < hi,
            forall|k: int, x: int|
                0 <= k < r@.len() && i <= x < a@.len() ==> ranks_before(
                    logits@,
                    #[trigger] r@[k] as int,
                    #[trigger] a@[x] as int,
                ),
            forall|k: int, x: int|
                0 <= k < r@.len() && j <= x < b@.len() ==> ranks_before(
                    logits@,
                    #[trigger] r@[k] as int,
                    #[trigger] b@[x] as int,
                ),
            forall|x: int| 0 <= x < i ==> is_in(r@, #[trigger] a@[x] as int),
            forall|x: int| 0 <= x < j ==> is_in(r@, #[trigger] b@[x] as int),
        decreases a@.len() - i + (b@.len() - j),
    {
        let left: bool = j == b.len() || (i < a.len() && order_of(logits[a[i] as usize])
            >= order_of(logits[b[j] as usize]));
        let ghost before = r@;
        let c: u32 = if left {
            a[i]
        } else {
            b[j]
        };
        r.push(c);
        proof {
            assert(r@[before.len() as int] == c);
            assert forall|x: int| is_in(before, x) implies #[trigger] is_in(r@, x) by {
                let k = choose|k: int| 0 <= k < before.len() && #[trigger] before[k] == x;
                assert(r@[k] == x);
            }
            assert(is_in(r@, c as int));
            if left {
                assert forall|x: int| j <= x < b@.len() implies #[trigger] ranks_before(
                    logits@,
                    c as int,
                    b@[x] as int,
                ) by {
                    assert(ranks_before(logits@, c as int, b@[j as int] as int));
                    if x > j {
                        assert(ranks_before(logits@, b@[j as int] as int, b@[x] as int));
                    }
                }
                assert forall|x: int| i < x < a@.len() implies #[trigger] ranks_before(
                    logits@,
                    c as int,
                    a@[x] as int,
                ) by {
                    assert(ranks_before(logits@, a@[i as int] as int, a@[x] as int));
                }
            } else {
                assert forall|x: int| i <= x < a@.len() implies #[trigger] ranks_before(
                    logits@,
                    c as int,
                    a@[x] as int,
                ) by {
                    assert(ranks_before(logits@, c as int, a@[i as int] as int));
                    if x > i {
                        assert(ranks_before(logits@, a@[i as int] as int, a@[x] as int));
                    }
                }
                assert forall|x: int| j < x < b@.len() implies #[trigger] ranks_before(
                    logits@,
                    c as int,
                    b@[x] as int,
                ) by {
                    assert(ranks_before(logits@, b@[j as int] as int, b@[x] as int));
                }
            }
        }
        if left {
            i += 1;
        } else {
            j += 1;
        }
    }
    proof {
        assert forall|c: int| lo <= c < hi implies #[trigger] is_in(r@, c) by {
            if c < mid {
                assert(is_in(a@, c));
                let x = choose|x: int| 0 <= x < a@.len() && #[trigger] a@[x] == c;
                assert(is_in(r@, a@[x] as int));
            } else {
                assert(is_in(b@, c));
                let x = choose|x: int| 0 <= x < b@.len() && #[trigger] b@[x] == c;
                assert(is_in(r@, b@[x] as int));
            }
        }
    }
    r
}

/// Ranks the candidates from `lo` to before `hi`.
fn rank_range(logits: &[u32], lo: usize, hi: usize) -> (ids: Vec<u32>)
    requires
        lo <= hi <= logits@.len() <= 0x1_0000_0000,
    ensures
        ranks_range(logits@, ids@, lo as int, hi as int),
    decreases hi - lo,
{
    let mut ids: Vec<u32> = Vec::new();
    if hi - lo == 0 {
        return ids;
    }
    if hi - lo == 1 {
        ids.push(lo as u32);
        assert(ids@[0] == lo);
        return ids;
    }
    let mid: usize = lo + (hi - lo) / 2;
    let a: Vec<u32> = rank_range(logits, lo, mid);
    let b: Vec<u32> = rank_range(logits, mid, hi);
    merge_ranked(logits, &a, &b, Ghost(lo as int), Ghost(mid as int), Ghost(hi as int))
}

/// Whether `ids` are the `top_k` best candidates, or all, best first: no
/// candidate that is left out ranks before one that is listed.
pub open spec fn are_best(logits: Seq<u32>, top_k: Option<usize>, ids: Seq<u32>) -> bool {
    &&& ids.len() == (match top_k {
        Some(k) => if k < logits.len() {
            k as int
        } else {
            logits.len() as int
        },
        None => logits.len() as int,
    })
    &&& is_ranked(logits, ids)
    &&& forall|i: int| 0 <= i < ids.len() ==> (#[trigger] ids[i]) < logits.len()
    &&& forall|i: int, c: int|
        0 <= i < ids.len() && 0 <= c < logits.len() && !is_in(ids, c) ==> #[trigger] ranks_before(
            logits,
            ids[i] as int,
            c,
        )
}

/// The candidates that may be drawn, best first: the `top_k` best, or all.
pub fn candidates(logits: &[u32], top_k: Option<usize>) -> (ids: Vec<u32>)
    requires
        logits@.len() <= 0x1_0000_0000,
    ensures
        are_best(logits@, top_k, ids@),
{
    let mut ids: Vec<u32> = rank_range(logits, 0, logits.len());
    let ghost all = ids@;
    if let Some(k) = top_k {
        if k < ids.len() {
            ids.truncate(k);
        }
    }
    proof {
        assert forall|i: int, c: int|
            0 <= i < ids@.len() && 0 <= c < logits@.len() && !is_in(ids@, c) implies #[trigger]
        ranks_before(logits@, ids@[i] as int, c) by {
            assert(is_in(all, c));
            let x = choose|x: int| 0 <= x < all.len() && #[trigger] all[x] == c;
            if x < ids@.len() {
                assert(ids@[x] == c);
            }
            assert(ranks_before(logits@, all[i] as int, all[x] as int));
        }
    }
    ids
}

/// The arithmetic of drawing a token. Like [`Kernels`], it promises nothing of
/// its results.
pub trait Drawing: Kernels {
    /// The bit pattern of a number, in single precision.
    fn bits(&self, x: Self::Num) -> u32;

    /// Whether a number is zero.
    fn is_zero(&self, x: Self::Num) -> bool;

    /// `a < b`.
    fn below(&self, a: Self::Num, b: Self::Num) -> bool;

    /// `a - b`.
    fn minus(&self, a: Self::Num, b: Self::Num) -> Self::Num;

    /// `a * b`.
    fn times(&self, a: Self::Num, b: Self::Num) -> Self::Num;
}

/// Whether `bits` are the bit patterns of the logits.
pub open spec fn patterns<D: Drawing>(d: &D, logits: Seq<D::Num>, bits: Seq<u32>) -> bool {
    &&& bits.len() == logits.len()
    &&& forall|i: int|
        0 <= i < logits.len() ==> call_ensures(D::bits, (d, logits[i]), #[trigger] bits[i])
}

fn patterns_of<D: Drawing>(d: &D, logits: &[D::Num]) -> (bits: Vec<u32>)
    ensures
        patterns(d, logits@, bits@),
{
    let mut bits: Vec<u32> = Vec::new();
    while bits.len() < logits.len()
        invariant
            bits@.len() <= logits@.len(),
            forall|i: int|
                0 <= i < bits@.len() ==> call_ensures(
                    D::bits,
                    (d, logits@[i]),
                    #[trigger] bits@[i],
                ),
        decreases logits@.len() - bits@.len(),
    {
        let b: u32 = d.bits(logits[bits.len()]);
        bits.push(b);
    }
    bits
}

/// Whether `x` are the logits of the candidates, divided by the temperature.
pub open spec fn tempered<D: Drawing>(
    d: &D,
    logits: Seq<D::Num>,
    temperature: D::Num,
    ids: Seq<u32>,
    x: Seq<D::Num>,
) -> bool {
    &&& x.len() == ids.len()
    &&& forall|i: int|
        0 <= i < ids.len() ==> call_ensures(
            D::quotient,
            (d, logits[ids[i] as int], temperature),
            #[trigger] x[i],
        )
}

/// Whether `n` of the shares make the nucleus: the fewest, but at least one,
/// whose sum is not below `p`, or all.
pub open spec fn nucleus<D: Drawing>(d: &D, shares: Seq<D::Num>, p: D::Num, n: int) -> bool {
    &&& 0 < n <= shares.len()
    &&& exists|sums: Seq<D::Num>|
        {
            &&& #[trigger] running_totals(d, shares.take(n), sums)
            &&& forall|i: int|
                0 < i < n ==> call_ensures(D::below, (d, #[trigger] sums[i], p), true)
            &&& n < shares.len() ==> call_ensures(D::below, (d, sums[n], p), false)
        }
}

/// Whether `n` of the shares may be drawn from: those of the nucleus where one
/// is asked for, and else all.
pub open spec fn kept<D: Drawing>(
    d: &D,
    shares: Seq<D::Num>,
    top_p: Option<D::Num>,
    n: int,
) -> bool {
    match top_p {
        Some(p) => nucleus(d, shares, p, n),
        None => n == shares.len(),
    }
}

fn nucleus_len<D: Drawing>(d: &D, shares: &[D::Num], p: D::Num) -> (n: usize)
    requires
        shares@.len() > 0,
    ensures
        nucleus(d, shares@, p, n as int),
{
    let zero: D::Num = d.zero();
    let mut sum: D::Num = d.plus(zero, shares[0]);
    let ghost mut sums: Seq<D::Num> = seq![zero, sum];
    let mut n: usize = 1;
    assert(running_totals(d, shares@.take(1), sums));
    while n < shares.len()
        invariant
            0 < n <= shares@.len(),
            sums.len() == n + 1,
            sums.last() == sum,
            running_totals(d, shares@.take(n as int), sums),
            forall|i: int| 0 < i < n ==> call_ensures(D::below, (d, #[trigger] sums[i], p), true),
        decreases shares@.len() - n,
    {
        let more: bool = d.below(sum, p);
        if !more {
            return n;
        }
        let next: D::Num = d.plus(sum, shares[n]);
        proof {
            lemma_total_more(d, shares@, sums, next);
            sums = sums.push(next);
        }
        sum = next;
        n += 1;
    }
    n
}

/// One more share in a sum.
proof fn lemma_total_more<D: Drawing>(
    d: &D,
    shares: Seq<D::Num>,
    sums: Seq<D::Num>,
    next: D::Num,
)
    requires
        0 < sums.len() <= shares.len(),
        running_totals(d, shares.take(sums.len() - 1), sums),
        call_ensures(D::plus, (d, sums.last(), shares[sums.len() - 1]), next),
    ensures
        running_totals(d, shares.take(sums.len() as int), sums.push(next)),
{
    let n = sums.len() as int;
    let (now, more) = (shares.take(n), sums.push(next));
    assert forall|i: int| 0 <= i < now.len() implies call_ensures(
        D::plus,
        (d, more[i], #[trigger] now[i]),
        more[i + 1],
    ) by {
        assert(more[i] == sums[i]);
        if i < n - 1 {
            assert(now[i] == shares.take(n - 1)[i]);
        }
    }
}

/// Whether `rests` are what is left of a number as the shares are taken from
/// it, one after the other.
pub open spec fn running_rests<D: Drawing>(
    d: &D,
    shares: Seq<D::Num>,
    start: D::Num,
    rests: Seq<D::Num>,
) -> bool {
    &&& rests.len() > 0
    &&& rests[0] == start
    &&& forall|i: int|
        0 <= i < rests.len() - 1 ==> call_ensures(
            D::minus,
            (d, #[trigger] rests[i], shares[i]),
            rests[i + 1],
        )
}

/// Whether place `j` is the first whose share leaves nothing of a number, or
/// else the last place.
pub open spec fn lands_on<D: Drawing>(
    d: &D,
    shares: Seq<D::Num>,
    start: D::Num,
    zero: D::Num,
    j: int,
) -> bool {
    &&& 0 <= j < shares.len()
    &&& exists|rests: Seq<D::Num>|
        {
            &&& #[trigger] running_rests(d, shares, start, rests)
            &&& rests.len() == j + 2
            &&& forall|i: int|
                0 < i <= j ==> call_ensures(D::below, (d, zero, #[trigger] rests[i]), true)
            &&& j < shares.len() - 1 ==> call_ensures(D::below, (d, zero, rests[j + 1]), false)
        }
}

fn land<D: Drawing>(d: &D, shares: &[D::Num], start: D::Num, zero: D::Num) -> (j: usize)
    requires
        shares@.len() > 0,
    ensures
        lands_on(d, shares@, start, zero, j as int),
{
    let mut rest: D::Num = start;
    let ghost mut rests: Seq<D::Num> = seq![start];
    let mut j: usize = 0;
    loop
        invariant
            j < shares@.len(),
            rests.len() == j + 1,
            rests.last() == rest,
            running_rests(d, shares@, start, rests),
            forall|i: int|
                0 < i <= j ==> call_ensures(D::below, (d, zero, #[trigger] rests[i]), true),
        decreases shares@.len() - j,
    {
        let next: D::Num = d.minus(rest, shares[j]);
        proof {
            let more = rests.push(next);
            assert forall|i: int| 0 <= i < more.len() - 1 implies call_ensures(
                D::minus,
                (d, #[trigger] more[i], shares@[i]),
                more[i + 1],
            ) by {
                assert(more[i] == rests[i]);
            }
            assert(running_rests(d, shares@, start, more));
            assert forall|i: int| 0 < i <= j implies call_ensures(
                D::below,
                (d, zero, #[trigger] more[i]),
                true,
            ) by {
                assert(more[i] == rests[i]);
            }
            rests = more;
        }
        if j == shares.len() - 1 {
            return j;
        }
        let left: bool = d.below(zero, next);
        if !left {
            return j;
        }
        rest = next;
        j += 1;
    }
}

/// Whether `id` is what the number `draw`, from zero to below one, draws of the
/// candidates: each has the share that the softmax of the tempered logits gives
/// it.
pub open spec fn drawn<D: Drawing>(
    d: &D,
    logits: Seq<D::Num>,
    temperature: D::Num,
    top_p: Option<D::Num>,
    draw: D::Num,
    ids: Seq<u32>,
    id: u32,
) -> bool {
    exists|x: Seq<D::Num>, shares: Seq<D::Num>, n: int, j: int|
        {
            &&& #[trigger] tempered(d, logits, temperature, ids, x)
            &&& #[trigger] softmaxed(d, x, shares)
            &&& #[trigger] kept(d, shares, top_p, n)
            &&& #[trigger] picked(d, shares.take(n), draw, j)
            &&& ids[j] == id
        }
}

/// Whether place `j` is what `draw` picks of the shares.
pub open spec fn picked<D: Drawing>(d: &D, shares: Seq<D::Num>, draw: D::Num, j: int) -> bool {
    exists|total: D::Num, start: D::Num, zero: D::Num|
        {
            &&& #[trigger] totalled(d, shares, total)
            &&& call_ensures(D::times, (d, draw, total), start)
            &&& call_ensures(D::zero, (d,), zero)
            &&& #[trigger] lands_on(d, shares, start, zero, j)
        }
}

/// Draws one of the candidates.
fn draw_one<D: Drawing>(
    d: &D,
    logits: &[D::Num],
    temperature: D::Num,
    top_p: Option<D::Num>,
    draw: D::Num,
    ids: &Vec<u32>,
) -> (id: u32)
    requires
        ids@.len() > 0,
        forall|i: int| 0 <= i < ids@.len() ==> (#[trigger] ids@[i]) < logits@.len(),
    ensures
        drawn(d, logits@, temperature, top_p, draw, ids@, id),
        is_in(ids@, id as int),
{
    let mut x: Vec<D::Num> = Vec::new();
    while x.len() < ids.len()
        invariant
            x@.len() <= ids@.len(),
            forall|i: int| 0 <= i < ids@.len() ==> (#[trigger] ids@[i]) < logits@.len(),
            forall|i: int|
                0 <= i < x@.len() ==> call_ensures(
                    D::quotient,
                    (d, logits@[ids@[i] as int], temperature),
                    #[trigger] x@[i],
                ),
        decreases ids@.len() - x@.len(),
    {
        let q: D::Num = d.quotient(logits[ids[x.len()] as usize], temperature);
        x.push(q);
    }
    let mut shares: Vec<D::Num> = softmax(d, x.as_slice());
    let ghost all = shares@;
    let n: usize = match top_p {
        Some(p) => nucleus_len(d, shares.as_slice(), p),
        None => shares.len(),
    };
    shares.truncate(n);
    assert(shares@ =~= all.take(n as int));
    let total: D::Num = total_of(d, shares.as_slice());
    let start: D::Num = d.times(draw, total);
    let zero: D::Num = d.zero();
    let j: usize = land(d, shares.as_slice(), start, zero);
    assert(tempered(d, logits@, temperature, ids@, x@));
    assert(kept(d, all, top_p, n as int));
    assert(picked(d, all.take(n as int), draw, j as int));
    assert(is_in(ids@, ids@[j as int] as int));
    ids[j]
}

/// Whether `id` is what a draw of a token may give: greedy where the
/// temperature is zero or no candidate is asked for, and else one of the best
/// candidates.
pub open spec fn sampled<D: Drawing>(
    d: &D,
    logits: Seq<D::Num>,
    temperature: D::Num,
    top_k: Option<usize>,
    top_p: Option<D::Num>,
    draw: D::Num,
    id: u32,
) -> bool {
    exists|bits: Seq<u32>, greedy: bool|
        {
            &&& #[trigger] patterns(d, logits, bits)
            &&& #[trigger] call_ensures(D::is_zero, (d, temperature), greedy)
            &&& if greedy || top_k == Some(0usize) {
                is_best(bits, id as int)
            } else {
                exists|ids: Seq<u32>| #[trigger]
                    are_best(bits, top_k, ids) && drawn(
                        d,
                        logits,
                        temperature,
                        top_p,
                        draw,
                        ids,
                        id,
                    ) && is_in(ids, id as int)
            }
        }
}

/// Sample one token id with temperature, optional top-k and top-p (nucleus). A
/// temperature of zero is greedy. The number `draw`, from zero to below one, is
/// the caller's.
pub fn sample<D: Drawing>(
    d: &D,
    logits: &[D::Num],
    temperature: D::Num,
    top_k: Option<usize>,
    top_p: Option<D::Num>,
    draw: D::Num,
) -> (id: u32)
    requires
        0 < logits@.len() <= 0x1_0000_0000,
    ensures
        id < logits@.len(),
        sampled(d, logits@, temperature, top_k, top_p, draw, id),
{
    let bits: Vec<u32> = patterns_of(d, logits);
    let greedy: bool = d.is_zero(temperature);
    let none: bool = match top_k {
        Some(k) => k == 0,
        None => false,
    };
    if greedy || none {
        return argmax(bits.as_slice());
    }
    let ids: Vec<u32> = candidates(bits.as_slice(), top_k);
    assert(are_best(bits@, top_k, ids@));
    draw_one(d, logits, temperature, top_p, draw, &ids)
}

/// The best candidate is the greedy choice.
pub proof fn best_candidate_is_argmax(
    logits: Seq<u32>,
    top_k: Option<usize>,
    ids: Seq<u32>,
    id: u32,
)
    requires
        are_best(logits, top_k, ids),
        ids.len() > 0,
        is_best(logits, id as int),
    ensures
        ids[0] == id,
{
    if ids[0] != id {
        assert(ranks_before(logits, id as int, ids[0] as int));
        if is_in(ids, id as int) {
            let j = choose|j: int| 0 <= j < ids.len() && #[trigger] ids[j] == id;
            assert(ranks_before(logits, ids[0] as int, ids[j] as int));
        } else {
            assert(ranks_before(logits, ids[0] as int, id as int));
        }
    }
}

/// At a temperature of zero, a draw is the greedy choice.
pub proof fn zero_temperature_is_greedy<D: Drawing>(
    d: &D,
    logits: Seq<D::Num>,
    temperature: D::Num,
    top_k: Option<usize>,
    top_p: Option<D::Num>,
    draw: D::Num,
    id: u32,
)
    requires
        sampled(d, logits, temperature, top_k, top_p, draw, id),
        forall|zero: bool| #[trigger] call_ensures(D::is_zero, (d, temperature), zero) ==> zero,
    ensures
        exists|bits: Seq<u32>| #[trigger] patterns(d, logits, bits) && is_best(bits, id as int),
{
}

/// With one candidate, a draw is the greedy choice, at any temperature.
pub proof fn one_candidate_is_greedy<D: Drawing>(
    d: &D,
    logits: Seq<D::Num>,
    temperature: D::Num,
    top_p: Option<D::Num>,
    draw: D::Num,
    id: u32,
)
    requires
        sampled(d, logits, temperature, Some(1usize), top_p, draw, id),
        logits.len() > 0,
    ensures
        exists|bits: Seq<u32>| #[trigger] patterns(d, logits, bits) && is_best(bits, id as int),
{
    let (bits, greedy) = choose|bits: Seq<u32>, greedy: bool|
        {
            &&& #[trigger] patterns(d, logits, bits)
            &&& #[trigger] call_ensures(D::is_zero, (d, temperature), greedy)
            &&& if greedy || Some(1usize) == Some(0usize) {
                is_best(bits, id as int)
            } else {
                exists|ids: Seq<u32>| #[trigger]
                    are_best(bits, Some(1usize), ids) && drawn(
                        d,
                        logits,
                        temperature,
                        top_p,
                        draw,
                        ids,
                        id,
                    ) && is_in(ids, id as int)
            }
        };
    if !greedy {
        let ids = choose|ids: Seq<u32>| #[trigger]
            are_best(bits, Some(1usize), ids) && drawn(
                d,
                logits,
                temperature,
                top_p,
                draw,
                ids,
                id,
            ) && is_in(ids, id as int);
        let j = choose|j: int| 0 <= j < ids.len() && #[trigger] ids[j] == id;
        assert forall|c: int| 0 <= c < bits.len() && c != id implies #[trigger] ranks_before(
            bits,
            id as int,
            c,
        ) by {
            assert(!is_in(ids, c));
            assert(ranks_before(bits, ids[0] as int, c));
        }
        assert(is_best(bits, id as int));
    }
}

} // verus!
