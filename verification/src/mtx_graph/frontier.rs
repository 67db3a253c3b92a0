//! The frontier of the search for cheapest walks: a binary heap that hands
//! out an entry of least weight.
use vstd::prelude::*;
use super::graph::GraphIdx;

verus! {

/// A node with the cost at which it entered the frontier.
#[derive(Clone, Copy)]
pub struct QueueNode {
    pub idx: GraphIdx,
    pub weight: i32,
}

impl QueueNode {
    /// The entry for the node `idx` at the cost `weight`.
    pub fn new(idx: GraphIdx, weight: i32) -> (q: Self)
        ensures
            q == (QueueNode { idx, weight }),
    {
        Self { idx, weight }
    }
}

/// The entry at position `k` of a heap weighs no less than the one above
/// it.
pub open spec fn above_ok(s: Seq<QueueNode>, k: int) -> bool {
    s[(k - 1) / 2].weight <= s[k].weight
}

/// Every entry but the first weighs no less than the one above it.
pub open spec fn heap_ordered(s: Seq<QueueNode>) -> bool {
    forall|k: int| 1 <= k < s.len() ==> #[trigger] above_ok(s, k)
}

/// Every entry whose place above is not `i` weighs no less than the one
/// above it, and the entries below `i` weigh no less than the one above
/// `i`.
pub open spec fn ordered_but(s: Seq<QueueNode>, i: int) -> bool {
    &&& forall|k: int| 1 <= k < s.len() && (k - 1) / 2 != i ==> #[trigger] above_ok(s, k)
    &&& forall|k: int|
        1 <= k < s.len() && (k - 1) / 2 == i && i > 0 ==> s[(i - 1) / 2].weight <= (
        #[trigger] s[k]).weight
}

/// The first entry of an ordered heap is one of least weight.
pub proof fn lemma_first_is_least(s: Seq<QueueNode>, k: int)
    requires
        heap_ordered(s),
        0 <= k < s.len(),
    ensures
        s[0].weight <= s[k].weight,
    decreases k,
{
    if k > 0 {
        assert(above_ok(s, k));
        lemma_first_is_least(s, (k - 1) / 2);
    }
}

/// A collection of entries that hands out one of least weight first.
/// Entries of equal weight come out in no particular order.
pub struct Frontier {
    heap: Vec<QueueNode>,
}

impl Frontier {
    /// The entries, in the order in which the heap stores them.
    pub closed spec fn entries(&self) -> Seq<QueueNode> {
        self.heap@
    }

    /// The frontier holds the entry `e`.
    pub open spec fn holds(&self, e: QueueNode) -> bool {
        self.entries().contains(e)
    }

    /// The heap is in order.
    pub closed spec fn wf(&self) -> bool {
        heap_ordered(self.heap@)
    }

    /// A frontier without entries.
    pub fn new() -> (f: Self)
        ensures
            f.wf(),
            f.entries().len() == 0,
    {
        Self { heap: Vec::new() }
    }

    /// The number of entries.
    pub fn len(&self) -> (n: usize)
        ensures
            n == self.entries().len(),
    {
        self.heap.len()
    }

    /// Adds an entry.
    pub fn push(&mut self, e: QueueNode)
        requires
            old(self).wf(),
        ensures
            final(self).wf(),
            final(self).entries().len() == old(self).entries().len() + 1,
            forall|x: QueueNode| #[trigger] final(self).holds(x) <==> old(self).holds(x) || x == e,
    {
        let ghost before = self.heap@;
        self.heap.push(e);
        let mut i: usize = self.heap.len() - 1;
        proof {
            assert forall|x: QueueNode| #[trigger]
                self.heap@.contains(x) <==> before.contains(x) || x == e by {
                crate::search::lemma_contains_push(before, e, x);
            }
            assert forall|k: int| 1 <= k < self.heap@.len() && k != i implies #[trigger] above_ok(
                self.heap@,
                k,
            ) by {
                assert(above_ok(before, k));
            }
        }
        while i > 0
            invariant
                i < self.heap@.len(),
                self.heap@.len() == before.len() + 1,
                forall|x: QueueNode| #[trigger]
                    self.heap@.contains(x) <==> before.contains(x) || x == e,
                forall|k: int| 1 <= k < self.heap@.len() && k != i ==> #[trigger] above_ok(
                    self.heap@,
                    k,
                ),
                forall|k: int|
                    1 <= k < self.heap@.len() && (k - 1) / 2 == i && i > 0 ==> self.heap@[(i - 1)
                        / 2].weight <= (#[trigger] self.heap@[k]).weight,
            ensures
                heap_ordered(self.heap@),
                self.heap@.len() == before.len() + 1,
                forall|x: QueueNode| #[trigger]
                    self.heap@.contains(x) <==> before.contains(x) || x == e,
            decreases i,
        {
            let p = (i - 1) / 2;
            let child = self.heap[i];
            let parent = self.heap[p];
            if child.weight < parent.weight {
                let ghost cur = self.heap@;
                self.heap[i] = parent;
                self.heap[p] = child;
                proof {
                    let now = self.heap@;
                    assert(now == cur.update(i as int, parent).update(p as int, child));
                    assert forall|x: QueueNode| now.contains(x) <==> cur.contains(x) by {
                        if cur.contains(x) {
                            let k = choose|k: int| 0 <= k < cur.len() && cur[k] == x;
                            if k == i {
                                assert(now[p as int] == x);
                            } else if k == p {
                                assert(now[i as int] == x);
                            } else {
                                assert(now[k] == x);
                            }
                        }
                        if now.contains(x) {
                            let k = choose|k: int| 0 <= k < now.len() && now[k] == x;
                            if k == i {
                                assert(cur[p as int] == x);
                            } else if k == p {
                                assert(cur[i as int] == x);
                            } else {
                                assert(cur[k] == x);
                            }
                        }
                    }
                    assert forall|k: int| 1 <= k < now.len() && k != p implies #[trigger] above_ok(
                        now,
                        k,
                    ) by {
                        if k == i {
                        } else if (k - 1) / 2 == i {
                            assert(cur[(i - 1) / 2].weight <= cur[k].weight);
                        } else if (k - 1) / 2 == p {
                            assert(above_ok(cur, k));
                        } else {
                            assert(above_ok(cur, k));
                        }
                    }
                    assert forall|k: int|
                        1 <= k < now.len() && (k - 1) / 2 == p && p > 0 implies now[(p - 1)
                        / 2].weight <= (#[trigger] now[k]).weight by {
                        assert(above_ok(cur, p as int));
                        if k != i {
                            assert(above_ok(cur, k));
                        }
                    }
                }
                i = p;
            } else {
                proof {
                    assert(above_ok(self.heap@, i as int));
                }
                break ;
            }
        }
    }

    /// Takes out an entry of least weight, or returns `None` if there is
    /// no entry.
    pub fn pop(&mut self) -> (r: Option<QueueNode>)
        requires
            old(self).wf(),
        ensures
            final(self).wf(),
            match r {
                None => old(self).entries().len() == 0 && final(self).entries() == old(
                    self,
                ).entries(),
                Some(e) => {
                    &&& old(self).holds(e)
                    &&& forall|x: QueueNode| #[trigger] old(self).holds(x) ==> e.weight <= x.weight
                    &&& final(self).entries().len() == old(self).entries().len() - 1
                    &&& forall|x: QueueNode| #[trigger] final(self).holds(x) ==> old(self).holds(x)
                    &&& forall|x: QueueNode|
                        old(self).holds(x) && x != e ==> #[trigger] final(self).holds(x)
                },
            },
    {
        let ghost before = self.heap@;
        if self.heap.len() == 0 {
            return None;
        }
        let top = self.heap[0];
        let last = self.heap.pop().unwrap();
        proof {
            assert forall|x: QueueNode| before.contains(x) implies top.weight <= x.weight by {
                let k = choose|k: int| 0 <= k < before.len() && before[k] == x;
                lemma_first_is_least(before, k);
            }
        }
        if self.heap.len() == 0 {
            proof {
                assert forall|x: QueueNode| before.contains(x) && x != top implies self.heap@.contains(
                    x,
                ) by {
                    let k = choose|k: int| 0 <= k < before.len() && before[k] == x;
                }
            }
            return Some(top);
        }
        self.heap[0] = last;
        let n = self.heap.len();
        proof {
            let now = self.heap@;
            assert(now == before.take(n as int).update(0, last));
            assert forall|x: QueueNode| now.contains(x) implies before.contains(x) by {
                let k = choose|k: int| 0 <= k < now.len() && now[k] == x;
                if k == 0 {
                    assert(before[n as int] == x);
                } else {
                    assert(before[k] == x);
                }
            }
            assert forall|x: QueueNode| before.contains(x) && x != top implies now.contains(x) by {
                let k = choose|k: int| 0 <= k < before.len() && before[k] == x;
                if k == n {
                    assert(now[0] == x);
                } else {
                    assert(now[k] == x);
                }
            }
            assert forall|k: int| 1 <= k < now.len() && (k - 1) / 2 != 0 implies #[trigger] above_ok(
                now,
                k,
            ) by {
                assert(above_ok(before, k));
            }
        }
        let ghost start = self.heap@;
        let mut i: usize = 0;
        while i < n / 2
            invariant
                i < n,
                n == self.heap@.len(),
                n == start.len(),
                ordered_but(self.heap@, i as int),
                forall|x: QueueNode| self.heap@.contains(x) <==> start.contains(x),
            ensures
                heap_ordered(self.heap@),
                n == self.heap@.len(),
                forall|x: QueueNode| self.heap@.contains(x) <==> start.contains(x),
            decreases n - i,
        {
            let l = 2 * i + 1;
            let r = l + 1;
            let c = if r < n && self.heap[r].weight < self.heap[l].weight {
                r
            } else {
                l
            };
            let here = self.heap[i];
            let below = self.heap[c];
            if below.weight < here.weight {
                let ghost cur = self.heap@;
                self.heap[i] = below;
                self.heap[c] = here;
                proof {
                    let now = self.heap@;
                    assert(now == cur.update(i as int, below).update(c as int, here));
                    assert forall|x: QueueNode| now.contains(x) <==> cur.contains(x) by {
                        if cur.contains(x) {
                            let k = choose|k: int| 0 <= k < cur.len() && cur[k] == x;
                            if k == i {
                                assert(now[c as int] == x);
                            } else if k == c {
                                assert(now[i as int] == x);
                            } else {
                                assert(now[k] == x);
                            }
                        }
                        if now.contains(x) {
                            let k = choose|k: int| 0 <= k < now.len() && now[k] == x;
                            if k == i {
                                assert(cur[c as int] == x);
                            } else if k == c {
                                assert(cur[i as int] == x);
                            } else {
                                assert(cur[k] == x);
                            }
                        }
                    }
                    assert forall|k: int|
                        1 <= k < now.len() && (k - 1) / 2 != c implies #[trigger] above_ok(now, k) by {
                        if k == i {
                            assert(cur[(i - 1) / 2].weight <= cur[c as int].weight);
                        } else if (k - 1) / 2 == i {
                            // the two entries below `i`: `c` and the other one
                            assert(k == l || k == r);
                        } else {
                            assert(above_ok(cur, k));
                        }
                    }
                    assert forall|k: int|
                        1 <= k < now.len() && (k - 1) / 2 == c && c > 0 implies now[(c - 1)
                        / 2].weight <= (#[trigger] now[k]).weight by {
                        assert(above_ok(cur, k));
                    }
                }
                i = c;
            } else {
                proof {
                    let now = self.heap@;
                    assert forall|k: int| 1 <= k < now.len() implies #[trigger] above_ok(now, k) by {
                        if (k - 1) / 2 == i {
                            assert(k == l || k == r);
                        }
                    }
                }
                break ;
            }
        }
        Some(top)
    }
}

} // verus!
