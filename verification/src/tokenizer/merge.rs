//! Merging by priority: of all neighbouring pieces that may merge, the pair of
//! the highest priority does, the leftmost one among equals, until none may.
//!
//! Both tokenizers merge this way. They differ in the priority of a pair, and
//! in how they find the best pair.
//!
//! A priority may compare with no other. Such a pair is neither above nor below
//! the next one, so of the two the left one goes first: the leftmost pair stays
//! ahead if its priority compares with none, and elsewhere such a pair never
//! gets ahead of the pairs before it.

use vstd::prelude::*;
use vstd::seq_lib::lemma_flatten_concat;

verus! {

/// The priority at which two neighbouring pieces merge; `None` if they do not.
pub type Priority = spec_fn(Seq<char>, Seq<char>) -> Option<int>;

/// The priority of the pair at `i`.
pub open spec fn pair_priority(p: Seq<Seq<char>>, prio: Priority, i: int) -> Option<int> {
    prio(p[i], p[i + 1])
}

/// The priority that compares with no other. It is below every other one.
pub open spec fn unordered() -> int {
    -0x1_0000_0000
}

/// Whether every priority compares with every other.
pub open spec fn is_ordered(prio: Priority) -> bool {
    forall|a: Seq<char>, b: Seq<char>| #[trigger] prio(a, b) != Some(unordered())
}

/// Whether the pair at `i` is the leftmost that may merge, at a priority that
/// compares with no other.
pub open spec fn stays_ahead(p: Seq<Seq<char>>, prio: Priority, i: int) -> bool {
    &&& 0 <= i < p.len() - 1
    &&& pair_priority(p, prio, i) == Some(unordered())
    &&& forall|j: int| 0 <= j < i ==> (#[trigger] pair_priority(p, prio, j)) is None
}

/// Whether the pair at `i` is the leftmost of the highest priority.
pub open spec fn is_top(p: Seq<Seq<char>>, prio: Priority, i: int) -> bool {
    &&& 0 <= i < p.len() - 1
    &&& pair_priority(p, prio, i) is Some
    &&& forall|j: int|
        0 <= j < p.len() - 1 && (#[trigger] pair_priority(p, prio, j)) is Some ==> {
            let (x, y) = (pair_priority(p, prio, j)->0, pair_priority(p, prio, i)->0);
            x < y || x == y && i <= j
        }
}

/// Whether the pair at `i` is the one to merge.
pub open spec fn is_best(p: Seq<Seq<char>>, prio: Priority, i: int) -> bool {
    if exists|j: int| stays_ahead(p, prio, j) {
        stays_ahead(p, prio, i)
    } else {
        is_top(p, prio, i)
    }
}

/// Where all priorities compare, the top pair is the one to merge.
pub proof fn top_is_best(p: Seq<Seq<char>>, prio: Priority, i: int)
    requires
        is_ordered(prio),
    ensures
        is_best(p, prio, i) == is_top(p, prio, i),
{
}

/// Whether priority `x` is below priority `y`; one that compares with no other
/// is neither below nor above.
pub open spec fn is_below(x: int, y: int) -> bool {
    x != unordered() && y != unordered() && x < y
}

/// Whether the pair at `i` goes before the pair at `j`: its priority is above,
/// or it is not below and the pair stands to the left.
pub open spec fn goes_before(p: Seq<Seq<char>>, prio: Priority, i: int, j: int) -> bool {
    let (x, y) = (pair_priority(p, prio, i)->0, pair_priority(p, prio, j)->0);
    is_below(y, x) || !is_below(x, y) && i < j
}

/// A pair that goes before every other one is the one to merge.
pub proof fn first_pair_is_best(p: Seq<Seq<char>>, prio: Priority, i: int)
    requires
        forall|a: Seq<char>, b: Seq<char>|
            (#[trigger] prio(a, b)) is Some ==> prio(a, b)->0 >= unordered(),
        0 <= i < p.len() - 1,
        pair_priority(p, prio, i) is Some,
        forall|j: int|
            0 <= j < p.len() - 1 && j != i && (#[trigger] pair_priority(p, prio, j)) is Some
                ==> goes_before(p, prio, i, j),
    ensures
        is_best(p, prio, i),
{
    assert forall|j: int| stays_ahead(p, prio, j) implies j == i by {
        if i < j {
            assert(pair_priority(p, prio, i) is Some);
        } else if j < i {
            assert(goes_before(p, prio, i, j));
        }
    }
    if pair_priority(p, prio, i) == Some(unordered()) {
        assert forall|j: int| 0 <= j < i implies (#[trigger] pair_priority(p, prio, j)) is None by {
            if pair_priority(p, prio, j) is Some {
                assert(goes_before(p, prio, i, j));
            }
        }
        assert(stays_ahead(p, prio, i));
    } else {
        assert(!stays_ahead(p, prio, i));
        assert forall|j: int|
            0 <= j < p.len() - 1 && (#[trigger] pair_priority(p, prio, j)) is Some implies {
            let (x, y) = (pair_priority(p, prio, j)->0, pair_priority(p, prio, i)->0);
            x < y || x == y && i <= j
        } by {
            assert(prio(p[j], p[j + 1]) is Some && prio(p[i], p[i + 1]) is Some);
            if j != i {
                assert(goes_before(p, prio, i, j));
            }
        }
    }
}

/// The pieces after the pair at `i` has merged.
pub open spec fn merge_at(p: Seq<Seq<char>>, i: int) -> Seq<Seq<char>> {
    p.take(i).push(p[i] + p[i + 1]) + p.skip(i + 2)
}

/// The pieces that are left when no pair may merge any more.
pub open spec fn merge_all(p: Seq<Seq<char>>, prio: Priority) -> Seq<Seq<char>>
    decreases p.len(),
{
    if exists|i: int| is_best(p, prio, i) {
        merge_all(merge_at(p, choose|i: int| is_best(p, prio, i)), prio)
    } else {
        p
    }
}

/// Each character as a piece of its own.
pub open spec fn singles(s: Seq<char>) -> Seq<Seq<char>> {
    Seq::new(s.len(), |i: int| seq![s[i]])
}

/// One step of merging: the best pair is the one that goes.
pub proof fn merge_step(p: Seq<Seq<char>>, prio: Priority, i: int)
    requires
        is_best(p, prio, i),
    ensures
        merge_all(p, prio) == merge_all(merge_at(p, i), prio),
{
    let c = choose|k: int| is_best(p, prio, k);
    assert(is_best(p, prio, c));
    assert(pair_priority(p, prio, c) is Some);
    assert(pair_priority(p, prio, i) is Some);
    assert(c == i) by {
        if c < i {
            assert(!stays_ahead(p, prio, i));
        } else if i < c {
            assert(!stays_ahead(p, prio, c));
        }
    }
}

/// Merging ends where no pair has a priority.
pub proof fn merge_done(p: Seq<Seq<char>>, prio: Priority)
    requires
        forall|i: int|
            0 <= i < p.len() - 1 ==> (#[trigger] pair_priority(p, prio, i)) is None,
    ensures
        merge_all(p, prio) == p,
{
}

/// The best pair exists wherever some pair has a priority.
pub proof fn best_exists(p: Seq<Seq<char>>, prio: Priority, n: int) -> (i: int)
    requires
        0 <= n < p.len() - 1,
        pair_priority(p, prio, n) is Some,
    ensures
        is_best(p, prio, i),
{
    if exists|j: int| stays_ahead(p, prio, j) {
        choose|j: int| stays_ahead(p, prio, j)
    } else {
        best_below(p, prio, n, p.len() - 1)
    }
}

proof fn best_below(p: Seq<Seq<char>>, prio: Priority, n: int, m: int) -> (i: int)
    requires
        0 <= n < m <= p.len() - 1,
        pair_priority(p, prio, n) is Some,
    ensures
        0 <= i < m,
        pair_priority(p, prio, i) is Some,
        forall|j: int|
            0 <= j < m && (#[trigger] pair_priority(p, prio, j)) is Some ==> {
                let (x, y) = (pair_priority(p, prio, j)->0, pair_priority(p, prio, i)->0);
                x < y || x == y && i <= j
            },
    decreases m,
{
    if n == m - 1 {
        if exists|k: int| 0 <= k < m - 1 && (#[trigger] pair_priority(p, prio, k)) is Some {
            let k = choose|k: int|
                0 <= k < m - 1 && (#[trigger] pair_priority(p, prio, k)) is Some;
            let i = best_below(p, prio, k, m - 1);
            if pair_priority(p, prio, i)->0 >= pair_priority(p, prio, n)->0 {
                i
            } else {
                n
            }
        } else {
            n
        }
    } else {
        let i = best_below(p, prio, n, m - 1);
        if pair_priority(p, prio, m - 1) is Some && pair_priority(p, prio, m - 1)->0
            > pair_priority(p, prio, i)->0 {
            m - 1
        } else {
            i
        }
    }
}

proof fn lemma_merge_at_joins(p: Seq<Seq<char>>, i: int)
    requires
        0 <= i < p.len() - 1,
    ensures
        merge_at(p, i).flatten() == p.flatten(),
{
    let (a, z) = (p.take(i), p.skip(i + 2));
    let both = p[i] + p[i + 1];
    lemma_flatten_concat(a.push(both), z);
    a.lemma_flatten_push(both);
    a.lemma_flatten_push(p[i]);
    a.push(p[i]).lemma_flatten_push(p[i + 1]);
    lemma_flatten_concat(a.push(p[i]).push(p[i + 1]), z);
    assert(p =~= a.push(p[i]).push(p[i + 1]) + z);
    assert(a.flatten() + both =~= a.flatten() + p[i] + p[i + 1]);
}

/// Merging keeps the text: the pieces, joined, are what they were.
pub proof fn merging_keeps_text(p: Seq<Seq<char>>, prio: Priority)
    ensures
        merge_all(p, prio).flatten() == p.flatten(),
    decreases p.len(),
{
    if exists|i: int| is_best(p, prio, i) {
        let i = choose|i: int| is_best(p, prio, i);
        lemma_merge_at_joins(p, i);
        merging_keeps_text(merge_at(p, i), prio);
    }
}

/// Merging goes on to the end: no pair that may merge is left.
pub proof fn merging_is_complete(p: Seq<Seq<char>>, prio: Priority)
    ensures
        forall|i: int|
            0 <= i < merge_all(p, prio).len() - 1 ==> (#[trigger] pair_priority(
                merge_all(p, prio),
                prio,
                i,
            )) is None,
    decreases p.len(),
{
    if exists|i: int| is_best(p, prio, i) {
        let i = choose|i: int| is_best(p, prio, i);
        merging_is_complete(merge_at(p, i), prio);
    } else {
        assert forall|n: int| 0 <= n < p.len() - 1 implies (#[trigger] pair_priority(
            p,
            prio,
            n,
        )) is None by {
            if pair_priority(p, prio, n) is Some {
                let i = best_exists(p, prio, n);
            }
        }
    }
}

/// What merging makes: whatever holds of every piece at the start, and of the
/// merge of any two pieces that it holds of, holds of every piece at the end.
pub proof fn merged_pieces(p: Seq<Seq<char>>, prio: Priority, ok: spec_fn(Seq<char>) -> bool)
    requires
        forall|i: int| 0 <= i < p.len() ==> ok(#[trigger] p[i]),
        forall|a: Seq<char>, b: Seq<char>|
            ok(a) && ok(b) && #[trigger] prio(a, b) is Some ==> ok(a + b),
    ensures
        forall|i: int| 0 <= i < merge_all(p, prio).len() ==> ok(#[trigger] merge_all(p, prio)[i]),
    decreases p.len(),
{
    if exists|i: int| is_best(p, prio, i) {
        let i = choose|i: int| is_best(p, prio, i);
        let q = merge_at(p, i);
        assert(ok(p[i]) && ok(p[i + 1]) && prio(p[i], p[i + 1]) is Some);
        assert forall|k: int| 0 <= k < q.len() implies ok(#[trigger] q[k]) by {
            if k < i {
                assert(q[k] == p[k]);
            } else if k > i {
                assert(q[k] == p[k + 1]);
            }
        }
        merged_pieces(q, prio, ok);
        assert(merge_all(p, prio) == merge_all(q, prio));
    }
}

proof fn lemma_left_top(p: Seq<Seq<char>>, q: Seq<Seq<char>>, prio: Priority, i: int)
    requires
        is_top(p + q, prio, i),
        0 <= i < p.len() - 1,
    ensures
        is_top(p, prio, i),
        merge_at(p + q, i) == merge_at(p, i) + q,
{
    assert forall|j: int| 0 <= j < p.len() - 1 implies #[trigger] pair_priority(p, prio, j)
        == pair_priority(p + q, prio, j) by {}
    assert(merge_at(p + q, i) =~= merge_at(p, i) + q);
}

proof fn lemma_right_top(p: Seq<Seq<char>>, q: Seq<Seq<char>>, prio: Priority, i: int)
    requires
        is_top(p + q, prio, i),
        p.len() <= i,
    ensures
        is_top(q, prio, i - p.len()),
        merge_at(p + q, i) == p + merge_at(q, i - p.len()),
{
    let n = p.len();
    assert forall|j: int| 0 <= j < q.len() - 1 implies #[trigger] pair_priority(q, prio, j)
        == pair_priority(p + q, prio, j + n) by {}
    assert(merge_at(p + q, i) =~= p + merge_at(q, i - n));
}

/// Two rows of pieces merge independently of each other where nothing merges
/// with a piece that starts like the second row, and all priorities compare.
pub proof fn rows_merge_apart(p: Seq<Seq<char>>, q: Seq<Seq<char>>, prio: Priority, c: char)
    requires
        is_ordered(prio),
        q.len() > 0 ==> q[0].len() > 0 && q[0][0] == c,
        forall|a: Seq<char>, b: Seq<char>|
            b.len() > 0 && b[0] == c ==> #[trigger] prio(a, b) is None,
    ensures
        merge_all(p + q, prio) == merge_all(p, prio) + merge_all(q, prio),
    decreases p.len() + q.len(),
{
    let r = p + q;
    if exists|i: int| is_best(r, prio, i) {
        let i = choose|i: int| is_best(r, prio, i);
        top_is_best(r, prio, i);
        assert(pair_priority(r, prio, i) is Some);
        if i < p.len() - 1 {
            lemma_left_top(p, q, prio, i);
            top_is_best(p, prio, i);
            merge_step(r, prio, i);
            merge_step(p, prio, i);
            rows_merge_apart(merge_at(p, i), q, prio, c);
        } else if i >= p.len() {
            let k = i - p.len();
            lemma_right_top(p, q, prio, i);
            top_is_best(q, prio, k);
            merge_step(r, prio, i);
            merge_step(q, prio, k);
            let m = merge_at(q, k);
            assert(m[0].len() > 0 && m[0][0] == c);
            rows_merge_apart(p, m, prio, c);
        } else {
            assert(r[i] == p[i] && r[i + 1] == q[0]);
            assert(prio(p[i], q[0]) is None);
        }
    } else {
        assert forall|j: int| 0 <= j < r.len() - 1 implies (#[trigger] pair_priority(
            r,
            prio,
            j,
        )) is None by {
            if pair_priority(r, prio, j) is Some {
                let b = best_exists(r, prio, j);
            }
        }
        merge_done(r, prio);
        assert forall|j: int| 0 <= j < p.len() - 1 implies (#[trigger] pair_priority(
            p,
            prio,
            j,
        )) is None by {
            assert(pair_priority(r, prio, j) is None);
        }
        merge_done(p, prio);
        assert forall|j: int| 0 <= j < q.len() - 1 implies (#[trigger] pair_priority(
            q,
            prio,
            j,
        )) is None by {
            assert(pair_priority(r, prio, j + p.len()) is None);
        }
        merge_done(q, prio);
    }
}

/// The single characters of a text, joined, are the text.
pub proof fn singles_join(s: Seq<char>)
    ensures
        singles(s).flatten() == s,
    decreases s.len(),
{
    if s.len() > 0 {
        let init = s.drop_last();
        singles_join(init);
        assert(singles(s) =~= singles(init).push(seq![s.last()]));
        singles(init).lemma_flatten_push(seq![s.last()]);
        assert(init + seq![s.last()] =~= s);
    } else {
        assert(s =~= seq![]);
    }
}

} // verus!
