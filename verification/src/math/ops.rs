//! Elementwise operations and reductions.

use vstd::prelude::*;

use crate::math::kernels::Kernels;
use crate::gguf::Vector;

verus! {

/// Whether `scale` is what scales `x` to its RMS norm.
pub open spec fn norm_scaled<K: Kernels>(k: &K, x: Seq<K::Num>, eps: u32, scale: K::Num) -> bool {
    exists|s: &[K::Num]| #[trigger] call_ensures(K::norm_scale, (k, s, eps), scale) && s@ == x
}

/// Whether `out` is the weighted RMS norm of `x`.
pub open spec fn normed<K: Kernels>(
    k: &K,
    x: Seq<K::Num>,
    weight: Seq<u32>,
    eps: u32,
    out: Seq<K::Num>,
) -> bool {
    &&& out.len() == x.len()
    &&& exists|scale: K::Num|
        {
            &&& #[trigger] norm_scaled(k, x, eps, scale)
            &&& forall|i: int|
                0 <= i < x.len() ==> call_ensures(
                    K::scaled,
                    (k, x[i], scale, weight[i]),
                    #[trigger] out[i],
                )
        }
}

/// RMSNorm: `x[i] / sqrt(mean(x^2) + eps) * weight[i]`.
pub fn rmsnorm<K: Kernels>(k: &K, x: &[K::Num], weight: &Vector<'_>, eps: u32) -> (out: Vec<K::Num>)
    requires
        x@.len() == weight@.len(),
    ensures
        normed(k, x@, weight@, eps, out@),
{
    let scale: K::Num = k.norm_scale(x, eps);
    assert(norm_scaled(k, x@, eps, scale));
    let mut out: Vec<K::Num> = Vec::new();
    let mut i: usize = 0;
    while i < x.len()
        invariant
            x@.len() == weight@.len(),
            i <= x@.len(),
            out@.len() == i,
            forall|j: int|
                0 <= j < i ==> call_ensures(
                    K::scaled,
                    (k, x@[j], scale, weight@[j]),
                    #[trigger] out@[j],
                ),
        decreases x@.len() - i,
    {
        out.push(k.scaled(x[i], scale, weight.get(i)));
        i += 1;
    }
    out
}

/// Whether `out` is the sum of `a` and `b`, number by number.
pub open spec fn summed<K: Kernels>(
    k: &K,
    a: Seq<K::Num>,
    b: Seq<K::Num>,
    out: Seq<K::Num>,
) -> bool {
    &&& out.len() == a.len()
    &&& forall|i: int|
        0 <= i < a.len() ==> call_ensures(K::plus, (k, a[i], b[i]), #[trigger] out[i])
}

/// The residual sum: `a[i] + b[i]`.
pub fn accumulate<K: Kernels>(k: &K, a: &[K::Num], b: &[K::Num]) -> (out: Vec<K::Num>)
    requires
        a@.len() == b@.len(),
    ensures
        summed(k, a@, b@, out@),
{
    let mut out: Vec<K::Num> = Vec::new();
    let mut i: usize = 0;
    while i < a.len()
        invariant
            a@.len() == b@.len(),
            i <= a@.len(),
            out@.len() == i,
            forall|j: int|
                0 <= j < i ==> call_ensures(K::plus, (k, a@[j], b@[j]), #[trigger] out@[j]),
        decreases a@.len() - i,
    {
        out.push(k.plus(a[i], b[i]));
        i += 1;
    }
    out
}

/// Whether `out` is the SwiGLU of `gate` and `up`, number by number.
pub open spec fn gated_by<K: Kernels>(
    k: &K,
    gate: Seq<K::Num>,
    up: Seq<K::Num>,
    out: Seq<K::Num>,
) -> bool {
    &&& out.len() == gate.len()
    &&& forall|i: int|
        0 <= i < gate.len() ==> call_ensures(K::gated, (k, gate[i], up[i]), #[trigger] out[i])
}

/// SwiGLU feed-forward activation: `silu(gate[i]) * up[i]`.
pub fn swiglu<K: Kernels>(k: &K, gate: &[K::Num], up: &[K::Num]) -> (out: Vec<K::Num>)
    requires
        gate@.len() == up@.len(),
    ensures
        gated_by(k, gate@, up@, out@),
{
    let mut out: Vec<K::Num> = Vec::new();
    let mut i: usize = 0;
    while i < gate.len()
        invariant
            gate@.len() == up@.len(),
            i <= gate@.len(),
            out@.len() == i,
            forall|j: int|
                0 <= j < i ==> call_ensures(K::gated, (k, gate@[j], up@[j]), #[trigger] out@[j]),
        decreases gate@.len() - i,
    {
        out.push(k.gated(gate[i], up[i]));
        i += 1;
    }
    out
}

/// Whether `tops` are the running maxima of `x`.
pub open spec fn running_tops<K: Kernels>(k: &K, x: Seq<K::Num>, tops: Seq<K::Num>) -> bool {
    &&& tops.len() == x.len() + 1
    &&& call_ensures(K::lowest, (k,), tops[0])
    &&& forall|i: int|
        0 <= i < x.len() ==> call_ensures(K::larger, (k, tops[i], #[trigger] x[i]), tops[i + 1])
}

/// Whether `sums` are the running sums of `x`.
pub open spec fn running_totals<K: Kernels>(k: &K, x: Seq<K::Num>, sums: Seq<K::Num>) -> bool {
    &&& sums.len() == x.len() + 1
    &&& call_ensures(K::zero, (k,), sums[0])
    &&& forall|i: int|
        0 <= i < x.len() ==> call_ensures(K::plus, (k, sums[i], #[trigger] x[i]), sums[i + 1])
}

/// Whether `top` is the largest number of `x`.
pub open spec fn topped<K: Kernels>(k: &K, x: Seq<K::Num>, top: K::Num) -> bool {
    exists|tops: Seq<K::Num>| #[trigger] running_tops(k, x, tops) && tops.last() == top
}

/// Whether `sum` is the sum of `x`.
pub open spec fn totalled<K: Kernels>(k: &K, x: Seq<K::Num>, sum: K::Num) -> bool {
    exists|sums: Seq<K::Num>| #[trigger] running_totals(k, x, sums) && sums.last() == sum
}

/// Whether `exps` are the exponentials of `x`, shifted by its largest number.
pub open spec fn shifted_exps<K: Kernels>(k: &K, x: Seq<K::Num>, exps: Seq<K::Num>) -> bool {
    exists|top: K::Num| #[trigger]
        topped(k, x, top) && exps.len() == x.len() && forall|i: int|
            0 <= i < x.len() ==> call_ensures(K::exp_below, (k, x[i], top), #[trigger] exps[i])
}

/// Whether `out` is the softmax of `x`.
pub open spec fn softmaxed<K: Kernels>(k: &K, x: Seq<K::Num>, out: Seq<K::Num>) -> bool {
    exists|exps: Seq<K::Num>, sum: K::Num|
        {
            &&& #[trigger] shifted_exps(k, x, exps)
            &&& #[trigger] totalled(k, exps, sum)
            &&& out.len() == x.len()
            &&& forall|i: int|
                0 <= i < x.len() ==> call_ensures(K::quotient, (k, exps[i], sum), #[trigger] out[i])
        }
}

/// The largest number of `x`.
pub(crate) fn top_of<K: Kernels>(k: &K, x: &[K::Num]) -> (top: K::Num)
    ensures
        topped(k, x@, top),
{
    let mut top: K::Num = k.lowest();
    let ghost mut tops: Seq<K::Num> = seq![top];
    let mut i: usize = 0;
    assert(x@.take(0).len() == 0);
    while i < x.len()
        invariant
            i <= x@.len(),
            tops.len() == i + 1,
            tops.last() == top,
            running_tops(k, x@.take(i as int), tops),
        decreases x@.len() - i,
    {
        let next: K::Num = k.larger(top, x[i]);
        proof {
            let (now, more) = (x@.take(i + 1), tops.push(next));
            assert forall|j: int| 0 <= j < now.len() implies call_ensures(
                K::larger,
                (k, more[j], #[trigger] now[j]),
                more[j + 1],
            ) by {
                assert(more[j] == tops[j]);
                if j < i {
                    assert(now[j] == x@.take(i as int)[j]);
                }
            }
            tops = more;
        }
        top = next;
        i += 1;
    }
    assert(x@.take(i as int) =~= x@);
    top
}

/// The sum of `x`.
pub(crate) fn total_of<K: Kernels>(k: &K, x: &[K::Num]) -> (sum: K::Num)
    ensures
        totalled(k, x@, sum),
{
    let mut sum: K::Num = k.zero();
    let ghost mut sums: Seq<K::Num> = seq![sum];
    let mut i: usize = 0;
    assert(x@.take(0).len() == 0);
    while i < x.len()
        invariant
            i <= x@.len(),
            sums.len() == i + 1,
            sums.last() == sum,
            running_totals(k, x@.take(i as int), sums),
        decreases x@.len() - i,
    {
        let next: K::Num = k.plus(sum, x[i]);
        proof {
            let (now, more) = (x@.take(i + 1), sums.push(next));
            assert forall|j: int| 0 <= j < now.len() implies call_ensures(
                K::plus,
                (k, more[j], #[trigger] now[j]),
                more[j + 1],
            ) by {
                assert(more[j] == sums[j]);
                if j < i {
                    assert(now[j] == x@.take(i as int)[j]);
                }
            }
            sums = more;
        }
        sum = next;
        i += 1;
    }
    assert(x@.take(i as int) =~= x@);
    sum
}

/// Softmax: `exp(x[i] - max(x))`, over the sum of these.
pub fn softmax<K: Kernels>(k: &K, x: &[K::Num]) -> (out: Vec<K::Num>)
    ensures
        softmaxed(k, x@, out@),
{
    let top: K::Num = top_of(k, x);
    let mut exps: Vec<K::Num> = Vec::new();
    while exps.len() < x.len()
        invariant
            exps@.len() <= x@.len(),
            forall|i: int|
                0 <= i < exps@.len() ==> call_ensures(
                    K::exp_below,
                    (k, x@[i], top),
                    #[trigger] exps@[i],
                ),
        decreases x@.len() - exps@.len(),
    {
        let e: K::Num = k.exp_below(x[exps.len()], top);
        exps.push(e);
    }
    let sum: K::Num = total_of(k, exps.as_slice());
    assert(shifted_exps(k, x@, exps@));
    let mut out: Vec<K::Num> = Vec::new();
    while out.len() < exps.len()
        invariant
            out@.len() <= exps@.len(),
            forall|i: int|
                0 <= i < out@.len() ==> call_ensures(
                    K::quotient,
                    (k, exps@[i], sum),
                    #[trigger] out@[i],
                ),
        decreases exps@.len() - out@.len(),
    {
        let q: K::Num = k.quotient(exps[out.len()], sum);
        out.push(q);
    }
    out
}

} // verus!
