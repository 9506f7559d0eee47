//! The candidate merges of a text, handed out best first: a binary heap.

use vstd::multiset::Multiset;
use vstd::prelude::*;
use vstd::seq_lib::{to_multiset_build, to_multiset_contains, to_multiset_update};

verus! {

/// A candidate merge of two neighbouring symbols.
#[derive(Clone, Copy, Debug, PartialEq, Eq, Structural)]
pub struct Bigram {
    pub left: usize,
    pub right: usize,
    /// The score of the merged piece, as its place in the numeric order.
    pub score: i64,
    /// The length of the merged piece in bytes.
    pub size: usize,
}

/// Whether `a` comes no earlier than `b`: the higher score is first, and among
/// equal scores the leftmost position.
pub open spec fn no_better(a: Bigram, b: Bigram) -> bool {
    a.score < b.score || a.score == b.score && a.left >= b.left
}

/// A priority queue of candidate merges.
pub struct Queue {
    items: Vec<Bigram>,
}

spec fn parent(i: int) -> int {
    (i - 1) / 2
}

/// Whether every item but the one at `skip` is no better than its parent.
spec fn ordered_but(s: Seq<Bigram>, skip: int) -> bool {
    forall|k: int|
        #![trigger s[k]]
        0 < k < s.len() && k != skip ==> no_better(s[k], s[parent(k)])
}

/// Whether every item is no better than its parent, but for the children of
/// the one at `skip`.
spec fn ordered_above(s: Seq<Bigram>, skip: int) -> bool {
    forall|k: int|
        #![trigger s[k]]
        0 < k < s.len() && parent(k) != skip ==> no_better(s[k], s[parent(k)])
}

/// Whether the children of the item at `i` are no better than its parent.
spec fn bridged(s: Seq<Bigram>, i: int) -> bool {
    i > 0 ==> forall|k: int|
        #![trigger s[k]]
        0 < k < s.len() && parent(k) == i ==> no_better(s[k], s[parent(i)])
}

spec fn swapped(s: Seq<Bigram>, i: int, j: int) -> Seq<Bigram> {
    s.update(i, s[j]).update(j, s[i])
}

proof fn lemma_swapped(s: Seq<Bigram>, i: int, j: int)
    requires
        0 <= i < s.len(),
        0 <= j < s.len(),
        i != j,
    ensures
        swapped(s, i, j).to_multiset() == s.to_multiset(),
{
    to_multiset_update(s, i, s[j]);
    to_multiset_update(s.update(i, s[j]), j, s[i]);
    broadcast use vstd::multiset::group_multiset_axioms;

    to_multiset_contains(s, s[i]);
    to_multiset_contains(s, s[j]);
    assert(s.contains(s[i]) && s.contains(s[j]));
    assert(swapped(s, i, j).to_multiset() =~= s.to_multiset());
}

/// The item at the top is the best one.
proof fn lemma_top(s: Seq<Bigram>, k: int)
    requires
        ordered_but(s, 0),
        0 <= k < s.len(),
    ensures
        no_better(s[k], s[0]),
    decreases k,
{
    if k > 0 {
        lemma_top(s, parent(k));
    }
}

/// Whether `a` comes before `b`.
fn better(a: &Bigram, b: &Bigram) -> (r: bool)
    ensures
        r == !no_better(*a, *b),
{
    a.score > b.score || (a.score == b.score && a.left < b.left)
}

impl Queue {
    /// The candidates in the queue.
    pub closed spec fn view(&self) -> Multiset<Bigram> {
        self.items@.to_multiset()
    }

    pub closed spec fn wf(&self) -> bool {
        ordered_but(self.items@, 0)
    }

    /// An empty queue.
    pub fn new() -> (q: Queue)
        ensures
            q.wf(),
            q@ == Multiset::<Bigram>::empty(),
    {
        let q: Queue = Queue { items: Vec::new() };
        assert(q.items@ =~= seq![]);
        proof {
            vstd::seq_lib::to_multiset_len(q.items@);
        }
        assert(q@ =~= Multiset::<Bigram>::empty()) by {
            assert forall|b: Bigram| q@.count(b) == 0 by {
                to_multiset_contains(q.items@, b);
            }
        }
        q
    }

    fn swap(&mut self, i: usize, j: usize)
        requires
            i < old(self).items@.len(),
            j < old(self).items@.len(),
            i != j,
        ensures
            final(self).items@ == swapped(old(self).items@, i as int, j as int),
            final(self)@ == old(self)@,
    {
        proof {
            lemma_swapped(self.items@, i as int, j as int);
        }
        let (a, b) = (self.items[i], self.items[j]);
        self.items.set(i, b);
        self.items.set(j, a);
    }

    /// Adds a candidate.
    pub fn push(&mut self, b: Bigram)
        requires
            old(self).wf(),
        ensures
            final(self).wf(),
            final(self)@ == old(self)@.insert(b),
    {
        proof {
            to_multiset_build(self.items@, b);
        }
        let mut i: usize = self.items.len();
        self.items.push(b);
        let ghost all = self@;
        while i > 0
            invariant_except_break
                i < self.items@.len(),
                ordered_but(self.items@, i as int),
                bridged(self.items@, i as int),
                self@ == all,
            ensures
                ordered_but(self.items@, 0),
                self@ == all,
            decreases i,
        {
            let p: usize = (i - 1) / 2;
            if !better(&self.items[i], &self.items[p]) {
                break;
            }
            let ghost s = self.items@;
            self.swap(i, p);
            proof {
                let t = self.items@;
                assert(s[i as int] == t[p as int] && s[p as int] == t[i as int]);
                assert forall|k: int|
                    #![trigger t[k]]
                    0 < k < t.len() && k != p implies no_better(t[k], t[parent(k)]) by {
                    if k == i {
                    } else {
                        assert(t[k] == s[k]);
                        assert(no_better(s[k], s[parent(k)]));
                        if parent(k) == i {
                            assert(no_better(s[k], s[p as int]));
                        } else if parent(k) == p {
                            assert(no_better(s[k], s[p as int]));
                        }
                    }
                }
                if p > 0 {
                    assert forall|k: int|
                        #![trigger t[k]]
                        0 < k < t.len() && parent(k) == p implies no_better(
                        t[k],
                        t[parent(p as int)],
                    ) by {
                        assert(no_better(s[p as int], s[parent(p as int)]));
                        if k != i {
                            assert(no_better(s[k], s[p as int]));
                        }
                    }
                }
            }
            i = p;
        }
    }

    /// The better child of an item, if it has any.
    fn child(&self, i: usize) -> (c: Option<usize>)
        requires
            i < self.items@.len(),
        ensures
            match c {
                Some(c) => i < c < self.items@.len() && parent(c as int) == i && forall|k: int|
                    #![trigger self.items@[k]]
                    0 < k < self.items@.len() && parent(k) == i ==> no_better(
                        self.items@[k],
                        self.items@[c as int],
                    ),
                None => forall|k: int| 0 < k < self.items@.len() ==> #[trigger] parent(k) != i,
            },
    {
        let n: usize = self.items.len();
        assert(n == self.items@.len());
        if i >= n - 1 - i {
            return None;
        }
        let l: usize = i + (i + 1);
        if l + 1 < n && better(&self.items[l + 1], &self.items[l]) {
            Some(l + 1)
        } else {
            Some(l)
        }
    }

    /// Takes out the best candidate.
    pub fn pop(&mut self) -> (b: Option<Bigram>)
        requires
            old(self).wf(),
        ensures
            final(self).wf(),
            match b {
                Some(b) => old(self)@.contains(b) && final(self)@ == old(self)@.remove(b)
                    && forall|x: Bigram| #[trigger] old(self)@.contains(x) ==> no_better(x, b),
                None => old(self)@ == Multiset::<Bigram>::empty() && final(self)@ == old(self)@,
            },
    {
        let ghost s0 = self.items@;
        if self.items.len() == 0 {
            assert(self@ =~= Multiset::<Bigram>::empty()) by {
                assert forall|x: Bigram| self@.count(x) == 0 by {
                    to_multiset_contains(s0, x);
                }
            }
            return None;
        }
        let top: Bigram = self.items.swap_remove(0);
        proof {
            assert forall|x: Bigram| #[trigger] s0.to_multiset().contains(x) implies no_better(
                x,
                top,
            ) by {
                to_multiset_contains(s0, x);
                let k = choose|k: int| 0 <= k < s0.len() && s0[k] == x;
                lemma_top(s0, k);
            }
            to_multiset_contains(s0, top);
            assert(s0.contains(s0[0]));
            lemma_taken(s0, self.items@);
        }
        let ghost all = self@;
        let mut i: usize = 0;
        let n: usize = self.items.len();
        while i < n
            invariant_except_break
                n == self.items@.len(),
                ordered_above(self.items@, i as int),
                bridged(self.items@, i as int),
                self@ == all,
            ensures
                ordered_but(self.items@, 0),
                self@ == all,
            decreases n - i,
        {
            match self.child(i) {
                None => break,
                Some(c) => {
                    let ghost s = self.items@;
                    if !better(&self.items[c], &self.items[i]) {
                        proof {
                            assert forall|k: int|
                                #![trigger s[k]]
                                0 < k < s.len() && k != 0 implies no_better(s[k], s[parent(k)]) by {
                                if parent(k) == i {
                                    assert(no_better(s[k], s[c as int]));
                                }
                            }
                        }
                        break;
                    }
                    self.swap(i, c);
                    proof {
                        let t = self.items@;
                        assert(t[i as int] == s[c as int] && t[c as int] == s[i as int]);
                        assert forall|k: int|
                            #![trigger t[k]]
                            0 < k < t.len() && parent(k) != c implies no_better(
                            t[k],
                            t[parent(k)],
                        ) by {
                            if k == c {
                            } else if parent(k) == i {
                                assert(no_better(s[k], s[c as int]));
                            } else if k == i {
                                assert(no_better(s[c as int], s[parent(i as int)]));
                            } else {
                                assert(no_better(s[k], s[parent(k)]));
                            }
                        }
                        assert forall|k: int|
                            #![trigger t[k]]
                            0 < k < t.len() && parent(k) == c implies no_better(
                            t[k],
                            t[parent(c as int)],
                        ) by {
                            assert(no_better(s[k], s[parent(k)]));
                        }
                    }
                    i = c;
                },
            }
        }
        Some(top)
    }
}

/// Moving the last item to the top takes one occurrence of the top away.
proof fn lemma_taken(s: Seq<Bigram>, t: Seq<Bigram>)
    requires
        s.len() > 0,
        t == s.update(0, s.last()).drop_last(),
    ensures
        t.to_multiset() == s.to_multiset().remove(s[0]),
{
    let u = s.update(0, s.last());
    to_multiset_update(s, 0, s.last());
    assert(t.push(u.last()) =~= u);
    to_multiset_build(t, u.last());
    to_multiset_contains(s, s[0]);
    assert(s.contains(s[0]));
    broadcast use vstd::multiset::group_multiset_axioms;

    assert(u.last() == s.last());
    assert forall|x: Bigram|
        t.to_multiset().count(x) == s.to_multiset().remove(s[0]).count(x) by {
        assert(u.to_multiset().count(x) == t.to_multiset().insert(s.last()).count(x));
    }
    assert(t.to_multiset() =~= s.to_multiset().remove(s[0]));
}

} // verus!
