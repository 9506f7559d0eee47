//! Rotary position embedding.
//!
//! Rotation is applied to adjacent pairs `(x[2i], x[2i + 1])` within each head,
//! by the angle `pos * freq_base^(-2i / head_dim)`.

use vstd::prelude::*;

use crate::math::kernels::Kernels;

verus! {

/// The places of pair `i` of head `h`.
pub open spec fn pair_of(head_dim: int, h: int, i: int) -> (int, int) {
    (h * head_dim + 2 * i, h * head_dim + 2 * i + 1)
}

/// No number rotates twice: two pairs that share a place are the same pair.
pub proof fn pairs_are_disjoint(head_dim: int, h: int, i: int, g: int, j: int)
    requires
        0 <= h,
        0 <= g,
        0 <= i < head_dim / 2,
        0 <= j < head_dim / 2,
        ({
            let (p, q) = (pair_of(head_dim, h, i), pair_of(head_dim, g, j));
            p.0 == q.0 || p.0 == q.1 || p.1 == q.0 || p.1 == q.1
        }),
    ensures
        h == g && i == j,
{
    if h != g {
        let (a, b) = if h < g {
            (h, g)
        } else {
            (g, h)
        };
        assert(a * head_dim + head_dim <= b * head_dim) by (nonlinear_arith)
            requires
                a < b,
                0 <= head_dim,
        ;
    }
}

/// Every number rotates: with heads of even size, each place belongs to a
/// pair.
pub proof fn pairs_cover_heads(head_dim: int, n_head: int, k: int)
    requires
        head_dim > 0,
        head_dim % 2 == 0,
        0 <= k < n_head * head_dim,
    ensures
        ({
            let (h, i) = (k / head_dim, k % head_dim / 2);
            &&& 0 <= h < n_head
            &&& 0 <= i < head_dim / 2
            &&& k == pair_of(head_dim, h, i).0 || k == pair_of(head_dim, h, i).1
        }),
{
    let (h, r) = (k / head_dim, k % head_dim);
    assert(k == h * head_dim + r && 0 <= r < head_dim && 0 <= h < n_head) by (nonlinear_arith)
        requires
            h == k / head_dim,
            r == k % head_dim,
            head_dim > 0,
            0 <= k < n_head * head_dim,
    ;
}

/// Whether `after` is `before` with the pairs of the first `heads` heads
/// rotated for position `pos`, and nothing else changed.
pub open spec fn rotated<K: Kernels>(
    k: &K,
    pos: usize,
    head_dim: usize,
    base: u32,
    heads: int,
    before: Seq<K::Num>,
    after: Seq<K::Num>,
) -> bool {
    &&& after.len() == before.len()
    &&& forall|h: int, i: int|
        #![trigger pair_of(head_dim as int, h, i)]
        0 <= h < heads && 0 <= i < head_dim as int / 2 ==> {
            let (p, q) = pair_of(head_dim as int, h, i);
            call_ensures(
                K::rotate,
                (k, pos, i as usize, head_dim, base, (before[p], before[q])),
                (after[p], after[q]),
            )
        }
    &&& forall|j: int|
        0 <= j < before.len() && !in_pairs(head_dim as int, heads, j) ==> #[trigger] after[j]
            == before[j]
}

/// Whether place `j` belongs to a pair of one of the first `heads` heads.
pub open spec fn in_pairs(head_dim: int, heads: int, j: int) -> bool {
    exists|h: int, i: int|
        #![trigger pair_of(head_dim, h, i)]
        0 <= h < heads && 0 <= i < head_dim / 2 && (j == pair_of(head_dim, h, i).0 || j == pair_of(
            head_dim,
            h,
            i,
        ).1)
}

/// Whether the first places are rotated, up to the length of `now`.
spec fn rotated_so_far<K: Kernels>(
    k: &K,
    pos: usize,
    head_dim: usize,
    base: u32,
    heads: int,
    before: Seq<K::Num>,
    now: Seq<K::Num>,
) -> bool {
    &&& now.len() <= before.len()
    &&& forall|h: int, i: int|
        #![trigger pair_of(head_dim as int, h, i)]
        0 <= h < heads && 0 <= i < head_dim as int / 2 && pair_of(head_dim as int, h, i).1
            < now.len() ==> {
            let (p, q) = pair_of(head_dim as int, h, i);
            call_ensures(
                K::rotate,
                (k, pos, i as usize, head_dim, base, (before[p], before[q])),
                (now[p], now[q]),
            )
        }
    &&& forall|j: int|
        0 <= j < now.len() && !in_pairs(head_dim as int, heads, j) ==> #[trigger] now[j]
            == before[j]
}

/// A pair lies in its head.
proof fn lemma_pair(head_dim: int, h: int, i: int)
    requires
        0 <= h,
        0 <= i < head_dim / 2,
    ensures
        0 <= h * head_dim <= pair_of(head_dim, h, i).0,
        pair_of(head_dim, h, i).1 < h * head_dim + head_dim / 2 * 2 <= h * head_dim + head_dim,
        (h + 1) * head_dim == h * head_dim + head_dim,
{
    assert((h + 1) * head_dim == h * head_dim + head_dim) by (nonlinear_arith);
    assert(0 <= h * head_dim) by (nonlinear_arith)
        requires
            0 <= h,
            0 <= head_dim,
    ;
}

proof fn lemma_heads_apart(head_dim: int, h: int, g: int)
    requires
        0 <= h < g,
        0 <= head_dim,
    ensures
        h * head_dim + head_dim <= g * head_dim,
{
    assert(h * head_dim + head_dim <= g * head_dim) by (nonlinear_arith)
        requires
            0 <= h < g,
            0 <= head_dim,
    ;
}

/// One more place that is the second of no pair.
proof fn lemma_kept<K: Kernels>(
    k: &K,
    pos: usize,
    head_dim: usize,
    base: u32,
    heads: int,
    before: Seq<K::Num>,
    now: Seq<K::Num>,
)
    requires
        rotated_so_far(k, pos, head_dim, base, heads, before, now),
        now.len() < before.len(),
        forall|h: int, i: int|
            #![trigger pair_of(head_dim as int, h, i)]
            0 <= h < heads && 0 <= i < head_dim as int / 2 ==> pair_of(head_dim as int, h, i).1
                != now.len(),
    ensures
        rotated_so_far(k, pos, head_dim, base, heads, before, now.push(before[now.len() as int])),
{
    let next = now.push(before[now.len() as int]);
    assert forall|h: int, i: int|
        #![trigger pair_of(head_dim as int, h, i)]
        0 <= h < heads && 0 <= i < head_dim as int / 2 && pair_of(head_dim as int, h, i).1
            < next.len() implies ({
        let (p, q) = pair_of(head_dim as int, h, i);
        call_ensures(
            K::rotate,
            (k, pos, i as usize, head_dim, base, (before[p], before[q])),
            (next[p], next[q]),
        )
    }) by {
        lemma_pair(head_dim as int, h, i);
        let (p, q) = pair_of(head_dim as int, h, i);
        assert(q < now.len());
        assert(next[p] == now[p] && next[q] == now[q]);
    }
}

/// One more pair.
proof fn lemma_turned<K: Kernels>(
    k: &K,
    pos: usize,
    head_dim: usize,
    base: u32,
    heads: int,
    before: Seq<K::Num>,
    now: Seq<K::Num>,
    h0: int,
    i0: int,
    pair: (K::Num, K::Num),
)
    requires
        rotated_so_far(k, pos, head_dim, base, heads, before, now),
        0 <= h0 < heads,
        0 <= i0 < head_dim as int / 2,
        now.len() == pair_of(head_dim as int, h0, i0).0,
        now.len() + 2 <= before.len(),
        call_ensures(
            K::rotate,
            (
                k,
                pos,
                i0 as usize,
                head_dim,
                base,
                (before[now.len() as int], before[now.len() as int + 1]),
            ),
            pair,
        ),
    ensures
        rotated_so_far(k, pos, head_dim, base, heads, before, now.push(pair.0).push(pair.1)),
{
    let next = now.push(pair.0).push(pair.1);
    let n = now.len() as int;
    assert((next[n], next[n + 1]) == pair);
    assert forall|h: int, i: int|
        #![trigger pair_of(head_dim as int, h, i)]
        0 <= h < heads && 0 <= i < head_dim as int / 2 && pair_of(head_dim as int, h, i).1
            < next.len() implies ({
        let (p, q) = pair_of(head_dim as int, h, i);
        call_ensures(
            K::rotate,
            (k, pos, i as usize, head_dim, base, (before[p], before[q])),
            (next[p], next[q]),
        )
    }) by {
        lemma_pair(head_dim as int, h, i);
        let (p, q) = pair_of(head_dim as int, h, i);
        if q < n {
            assert(next[p] == now[p] && next[q] == now[q]);
        } else {
            pairs_are_disjoint(head_dim as int, h, i, h0, i0);
        }
    }
    assert forall|j: int|
        0 <= j < next.len() && !in_pairs(head_dim as int, heads, j) implies #[trigger] next[j]
        == before[j] by {
        if j < n {
            assert(next[j] == now[j]);
        } else {
            assert(j == pair_of(head_dim as int, h0, i0).0 || j == pair_of(
                head_dim as int,
                h0,
                i0,
            ).1);
        }
    }
}

/// Apply rotary position embedding to the first `heads` heads of a vector.
pub fn rope<K: Kernels>(
    k: &K,
    v: &[K::Num],
    pos: usize,
    heads: usize,
    head_dim: usize,
    base: u32,
) -> (r: Vec<K::Num>)
    requires
        heads * head_dim <= v@.len(),
    ensures
        rotated(k, pos, head_dim, base, heads as int, v@, r@),
{
    let mut r: Vec<K::Num> = Vec::new();
    let half: usize = head_dim / 2;
    assert(v@.len() == v.len());
    assert(0 * head_dim == 0);
    let mut h: usize = 0;
    while h < heads
        invariant
            h <= heads,
            half == head_dim / 2,
            heads * head_dim <= v@.len(),
            v@.len() <= usize::MAX,
            r@.len() == h * head_dim,
            rotated_so_far(k, pos, head_dim, base, heads as int, v@, r@),
        decreases heads - h,
    {
        proof {
            lemma_heads_apart(head_dim as int, h as int, heads as int);
        }
        let mut i: usize = 0;
        while i < half
            invariant
                h < heads,
                i <= half,
                half == head_dim / 2,
                0 <= h * head_dim,
                h * head_dim + head_dim <= heads * head_dim <= v@.len(),
                v@.len() <= usize::MAX,
                r@.len() == h * head_dim + 2 * i,
                rotated_so_far(k, pos, head_dim, base, heads as int, v@, r@),
            decreases half - i,
        {
            let n: usize = r.len();
            let pair: (K::Num, K::Num) = k.rotate(pos, i, head_dim, base, (v[n], v[n + 1]));
            proof {
                assert(pair_of(head_dim as int, h as int, i as int).0 == n);
                lemma_turned(
                    k,
                    pos,
                    head_dim,
                    base,
                    heads as int,
                    v@,
                    r@,
                    h as int,
                    i as int,
                    pair,
                );
            }
            r.push(pair.0);
            r.push(pair.1);
            i += 1;
        }
        if head_dim % 2 == 1 {
            proof {
                let n = r@.len() as int;
                assert forall|g: int, j: int|
                    #![trigger pair_of(head_dim as int, g, j)]
                    0 <= g < heads && 0 <= j < head_dim as int / 2 implies pair_of(
                    head_dim as int,
                    g,
                    j,
                ).1 != n by {
                    lemma_pair(head_dim as int, g, j);
                    if g < h {
                        lemma_heads_apart(head_dim as int, g, h as int);
                    } else if h < g {
                        lemma_heads_apart(head_dim as int, h as int, g);
                    }
                }
                lemma_kept(k, pos, head_dim, base, heads as int, v@, r@);
            }
            let n: usize = r.len();
            r.push(v[n]);
        }
        assert((h + 1) * head_dim == h * head_dim + head_dim) by (nonlinear_arith);
        h += 1;
    }
    while r.len() < v.len()
        invariant
            heads * head_dim <= r@.len() <= v@.len(),
            rotated_so_far(k, pos, head_dim, base, heads as int, v@, r@),
        decreases v@.len() - r@.len(),
    {
        proof {
            let n = r@.len() as int;
            assert forall|g: int, j: int|
                #![trigger pair_of(head_dim as int, g, j)]
                0 <= g < heads && 0 <= j < head_dim as int / 2 implies pair_of(
                head_dim as int,
                g,
                j,
            ).1 != n by {
                lemma_pair(head_dim as int, g, j);
                lemma_heads_apart(head_dim as int, g, heads as int);
            }
            lemma_kept(k, pos, head_dim, base, heads as int, v@, r@);
        }
        let n: usize = r.len();
        r.push(v[n]);
    }
    proof {
        assert forall|g: int, j: int|
            #![trigger pair_of(head_dim as int, g, j)]
            0 <= g < heads && 0 <= j < head_dim as int / 2 implies pair_of(
            head_dim as int,
            g,
            j,
        ).1 < r@.len() by {
            lemma_pair(head_dim as int, g, j);
            lemma_heads_apart(head_dim as int, g, heads as int);
        }
    }
    r
}

} // verus!
