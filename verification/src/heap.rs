//! A binary heap of search labels: the smallest distance leaves first, and among
//! equal distances the largest node.
use vstd::multiset::Multiset;
use vstd::prelude::*;
use vstd::seq_lib::{to_multiset_build, to_multiset_remove, to_multiset_update};

verus! {

/// A label `(distance, node)` that leaves the queue before another.
pub open spec fn leaves_before(a: (i128, usize), b: (i128, usize)) -> bool {
    a.0 < b.0 || (a.0 == b.0 && a.1 > b.1)
}

/// A queue of labels from which the one with the smallest distance leaves first, among those of one
/// distance the one with the largest node.
pub struct LabelHeap {
    items: Vec<(i128, usize)>,
}

spec fn parent(i: int) -> int {
    (i - 1) / 2
}

/// Item `i` does not leave before its parent.
spec fn in_order(s: Seq<(i128, usize)>, i: int) -> bool {
    !leaves_before(s[i], s[parent(i)])
}

spec fn heap_ordered(s: Seq<(i128, usize)>) -> bool {
    forall|i: int| 0 < i < s.len() ==> #[trigger] in_order(s, i)
}

proof fn lemma_root_leaves_first(s: Seq<(i128, usize)>, i: int)
    requires
        heap_ordered(s),
        0 <= i < s.len(),
    ensures
        !leaves_before(s[i], s[0]),
    decreases i,
{
    if i > 0 {
        assert(in_order(s, i));
        lemma_root_leaves_first(s, parent(i));
    }
}

proof fn lemma_swap_keeps_items(s: Seq<(i128, usize)>, i: int, j: int)
    requires
        0 <= i < s.len(),
        0 <= j < s.len(),
        i != j,
    ensures
        s.update(i, s[j]).update(j, s[i]).to_multiset() == s.to_multiset(),
{
    to_multiset_update(s, i, s[j]);
    to_multiset_update(s.update(i, s[j]), j, s[i]);
    broadcast use vstd::seq_lib::group_to_multiset_ensures;
    assert(s.contains(s[i]) && s.contains(s[j]));
    if s[i] != s[j] {
        assert(s.update(i, s[j]).update(j, s[i]).to_multiset() =~= s.to_multiset());
    } else {
        assert(s.update(i, s[j]).update(j, s[i]) =~= s);
    }
}

impl LabelHeap {
    /// The labels that the heap holds.
    pub closed spec fn view(&self) -> Multiset<(i128, usize)> {
        self.items@.to_multiset()
    }

    /// The items are in heap order.
    pub closed spec fn wf(&self) -> bool {
        heap_ordered(self.items@)
    }

    /// A queue without labels.
    pub fn new() -> (heap: Self)
        ensures
            heap.wf(),
            heap@ == Multiset::<(i128, usize)>::empty(),
    {
        let heap = LabelHeap { items: Vec::new() };
        proof {
            broadcast use vstd::seq_lib::group_to_multiset_ensures;
            assert(heap.items@.to_multiset() =~= Multiset::<(i128, usize)>::empty());
        }
        heap
    }

    fn leaves_before_exec(a: (i128, usize), b: (i128, usize)) -> (r: bool)
        ensures
            r == leaves_before(a, b),
    {
        a.0 < b.0 || (a.0 == b.0 && a.1 > b.1)
    }

    /// Puts a label in the queue.
    pub fn push(&mut self, label: (i128, usize))
        requires
            old(self).wf(),
        ensures
            final(self).wf(),
            final(self)@ == old(self)@.insert(label),
    {
        proof {
            broadcast use vstd::seq_lib::group_to_multiset_ensures;
            to_multiset_build(self.items@, label);
        }
        self.items.push(label);
        let mut p: usize = self.items.len() - 1;
        proof {
            let t = self.items@;
            assert forall|i: int| 0 < i < t.len() && i != p implies #[trigger] in_order(t, i) by {
                assert(in_order(old(self).items@, i));
            }
        }
        while p > 0
            invariant_except_break
                p < self.items@.len(),
                self.items@.to_multiset() == old(self)@.insert(label),
                forall|i: int| 0 < i < self.items@.len() && i != p ==> #[trigger] in_order(self.items@, i),
                forall|c: int|
                    0 < c < self.items@.len() && parent(c) == p && p > 0 ==> !leaves_before(
                        #[trigger] self.items@[c],
                        self.items@[parent(p as int)],
                    ),
            ensures
                self.items@.to_multiset() == old(self)@.insert(label),
                heap_ordered(self.items@),
            decreases p,
        {
            let q: usize = (p - 1) / 2;
            let a = self.items[p];
            let b = self.items[q];
            if !Self::leaves_before_exec(a, b) {
                break;
            }
            let ghost s = self.items@;
            proof {
                lemma_swap_keeps_items(s, p as int, q as int);
            }
            self.items[p] = b;
            self.items[q] = a;
            proof {
                let t = self.items@;
                assert(t =~= s.update(p as int, s[q as int]).update(q as int, s[p as int]));
                assert forall|i: int| 0 < i < t.len() && i != q implies #[trigger] in_order(t, i) by {
                    if i != p {
                        assert(in_order(s, i));
                    }
                    if parent(i) == q && i != p {
                        assert(!leaves_before(s[i], s[q as int]));
                    }
                    if parent(i) == p {
                        assert(!leaves_before(s[i], s[parent(p as int)]));
                    }
                }
                assert forall|c: int| 0 < c < t.len() && parent(c) == q && q > 0 implies !leaves_before(
                    #[trigger] t[c],
                    t[parent(q as int)],
                ) by {
                    assert(in_order(s, q as int));
                    if c != p {
                        assert(in_order(s, c));
                    }
                }
            }
            p = q;
        }
    }

    /// Takes the label that leaves first.
    pub fn pop(&mut self) -> (label: Option<(i128, usize)>)
        requires
            old(self).wf(),
        ensures
            final(self).wf(),
            match label {
                None => old(self)@.len() == 0 && final(self)@ == old(self)@,
                Some(l) => {
                    &&& old(self)@.count(l) > 0
                    &&& final(self)@ == old(self)@.remove(l)
                    &&& forall|other: (i128, usize)| #[trigger]
                        old(self)@.count(other) > 0 ==> !leaves_before(other, l)
                },
            },
    {
        let n = self.items.len();
        let ghost s0 = self.items@;
        proof {
            broadcast use vstd::seq_lib::group_to_multiset_ensures;
            assert(s0.len() == s0.to_multiset().len());
        }
        if n == 0 {
            return None;
        }
        let top = self.items[0];
        proof {
            broadcast use vstd::seq_lib::group_to_multiset_ensures;
            assert(s0.contains(top));
            assert forall|other: (i128, usize)| #[trigger] s0.to_multiset().count(other) > 0 implies !leaves_before(
                other,
                top,
            ) by {
                assert(s0.contains(other));
                let i = choose|i: int| 0 <= i < s0.len() && s0[i] == other;
                lemma_root_leaves_first(s0, i);
            }
        }
        let last = self.items[n - 1];
        proof {
            to_multiset_remove(s0, n - 1);
            assert(s0.remove(n - 1) =~= s0.subrange(0, n - 1));
        }
        self.items.pop();
        if n == 1 {
            assert(self.items@.to_multiset() == s0.to_multiset().remove(top));
            return Some(top);
        }
        proof {
            let s1 = self.items@;
            to_multiset_update(s1, 0, last);
            broadcast use vstd::seq_lib::group_to_multiset_ensures;
            assert(s1.contains(s1[0]));
            assert(s1[0] == top);
            assert(s0.contains(last)) by {
                assert(s0[n - 1] == last);
            }
            assert(s1.update(0, last).to_multiset() =~= s0.to_multiset().remove(top)) by {
                assert(s1.to_multiset() == s0.to_multiset().remove(last));
            }
        }
        self.items[0] = last;
        let m = self.items.len();
        let mut p: usize = 0;
        proof {
            let t = self.items@;
            assert forall|i: int| 0 < i < t.len() && parent(i) != 0 implies #[trigger] in_order(t, i) by {
                assert(in_order(s0, i));
            }
        }
        while p < m
            invariant_except_break
                p < m,
                m == self.items@.len(),
                self.items@.to_multiset() == s0.to_multiset().remove(top),
                forall|i: int| 0 < i < m && parent(i) != p ==> #[trigger] in_order(self.items@, i),
                forall|c: int|
                    0 < c < m && parent(c) == p && p > 0 ==> !leaves_before(
                        #[trigger] self.items@[c],
                        self.items@[parent(p as int)],
                    ),
            ensures
                self.items@.to_multiset() == s0.to_multiset().remove(top),
                heap_ordered(self.items@),
            decreases m - p,
        {
            if p > (m - 1) / 2 || 2 * p + 1 >= m {
                assert(heap_ordered(self.items@));
                break;
            }
            let left: usize = 2 * p + 1;
            let mut c: usize = left;
            if left + 1 < m && Self::leaves_before_exec(self.items[left + 1], self.items[left]) {
                c = left + 1;
            }
            let ghost s = self.items@;
            assert forall|i: int| 0 < i < m && #[trigger] parent(i) == p implies i == left || i == left + 1 by {}
            let a = self.items[p];
            let b = self.items[c];
            if !Self::leaves_before_exec(b, a) {
                assert(heap_ordered(s)) by {
                    assert forall|i: int| 0 < i < s.len() implies #[trigger] in_order(s, i) by {
                        if parent(i) == p {
                            assert(i == left || i == left + 1);
                        }
                    }
                }
                break;
            }
            proof {
                lemma_swap_keeps_items(s, p as int, c as int);
            }
            self.items[p] = b;
            self.items[c] = a;
            proof {
                let t = self.items@;
                assert(t =~= s.update(p as int, s[c as int]).update(c as int, s[p as int]));
                assert(parent(c as int) == p);
                assert forall|i: int| 0 < i < m && parent(i) != c implies #[trigger] in_order(t, i) by {
                    if parent(i) == p {
                        assert(i == left || i == left + 1);
                    } else {
                        assert(in_order(s, i));
                        if i == p {
                            assert(!leaves_before(s[c as int], s[parent(p as int)]));
                        }
                    }
                }
                assert forall|d: int| 0 < d < m && parent(d) == c && c > 0 implies !leaves_before(
                    #[trigger] t[d],
                    t[parent(c as int)],
                ) by {
                    assert(in_order(s, d));
                }
            }
            p = c;
        }
        Some(top)
    }
}

/// A smaller distance leaves before a larger one; of two labels with the same distance the one
/// with the larger node does; so of two different labels exactly one leaves before the other.
pub proof fn lemma_nearest_leaves_first(a: (i128, usize), b: (i128, usize))
    ensures
        a.0 < b.0 ==> leaves_before(a, b) && !leaves_before(b, a),
        a.0 == b.0 && a.1 > b.1 ==> leaves_before(a, b) && !leaves_before(b, a),
        !leaves_before(a, a),
{
}

} // verus!
