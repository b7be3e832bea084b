use crate::open_set::OpenNode;
use vstd::multiset::Multiset;
use vstd::prelude::*;

verus! {

/// A record as the heap keeps it: with its priority and with the number of
/// records that were pushed before it, which orders records of equal priority.
#[derive(Clone, Copy, PartialEq, Eq, Structural, Debug)]
pub struct Slot {
    pub f: i64,
    pub ticket: u64,
    pub node: OpenNode,
}

impl Slot {
    /// `self` leaves the heap no later than `other`: smaller priority first,
    /// and of two equal priorities the earlier push first.
    pub open spec fn before(self, other: Slot) -> bool {
        self.f < other.f || (self.f == other.f && self.ticket <= other.ticket)
    }

    fn precedes(&self, other: &Slot) -> (b: bool)
        ensures
            b == self.before(*other),
    {
        self.f < other.f || (self.f == other.f && self.ticket <= other.ticket)
    }
}

/// A binary min-heap of slots in a vector: the slot at index `j > 0` does not
/// come before the slot at index `(j - 1) / 2`.
pub struct MinHeap {
    slots: Vec<Slot>,
}

/// The heap order holds between index `j` and its parent index.
pub open spec fn edge_ok(s: Seq<Slot>, j: int) -> bool {
    s[(j - 1) / 2].before(s[j])
}

/// The heap order holds on every edge.
pub open spec fn heap_ordered(s: Seq<Slot>) -> bool {
    forall|j: int| 0 < j < s.len() ==> #[trigger] edge_ok(s, j)
}

/// The heap order holds on every edge but the one above `hole`, and the
/// slots below `hole` do not come before the slot above it.
pub open spec fn ordered_but_above(s: Seq<Slot>, hole: int) -> bool {
    &&& forall|j: int| 0 < j < s.len() && j != hole ==> #[trigger] edge_ok(s, j)
    &&& forall|j: int|
        0 < j < s.len() && (j - 1) / 2 == hole && hole > 0 ==> s[(hole - 1) / 2].before(
            #[trigger] s[j],
        )
}

/// The heap order holds on every edge but those below `hole`, and the slots
/// below `hole` do not come before the slot above it.
pub open spec fn ordered_but_below(s: Seq<Slot>, hole: int) -> bool {
    &&& forall|j: int| 0 < j < s.len() && (j - 1) / 2 != hole ==> #[trigger] edge_ok(s, j)
    &&& forall|j: int|
        0 < j < s.len() && (j - 1) / 2 == hole && hole > 0 ==> s[(hole - 1) / 2].before(
            #[trigger] s[j],
        )
}

/// In a heap-ordered sequence no slot comes before the first.
pub proof fn lemma_root_first(s: Seq<Slot>, j: int)
    requires
        heap_ordered(s),
        0 <= j < s.len(),
    ensures
        s[0].before(s[j]),
    decreases j,
{
    if j > 0 {
        assert(edge_ok(s, j));
        lemma_root_first(s, (j - 1) / 2);
    }
}

/// Exchanging two elements of a sequence leaves its multiset unchanged.
pub proof fn lemma_swap_multiset(s: Seq<Slot>, a: int, b: int)
    requires
        0 <= a < s.len(),
        0 <= b < s.len(),
    ensures
        s.update(a, s[b]).update(b, s[a]).to_multiset() == s.to_multiset(),
{
    broadcast use vstd::seq_lib::group_to_multiset_ensures;

    let t = s.update(a, s[b]);
    vstd::seq_lib::to_multiset_update(s, a, s[b]);
    vstd::seq_lib::to_multiset_update(t, b, s[a]);
    assert(s.to_multiset().count(s[a]) > 0) by {
        assert(s.contains(s[a]));
    }
    assert(s.to_multiset().count(s[b]) > 0) by {
        assert(s.contains(s[b]));
    }
    assert(t.update(b, s[a]).to_multiset() =~= s.to_multiset());
}

impl MinHeap {
    /// The slots in the heap, each as often as it was pushed and not yet popped.
    pub closed spec fn view(&self) -> Multiset<Slot> {
        self.slots@.to_multiset()
    }

    /// The heap order holds.
    pub closed spec fn wf(&self) -> bool {
        heap_ordered(self.slots@)
    }

    /// An empty heap.
    pub fn new() -> (h: MinHeap)
        ensures
            h.wf(),
            h@ == Multiset::<Slot>::empty(),
    {
        let h = MinHeap { slots: Vec::new() };
        assert(h.slots@.to_multiset() =~= Multiset::<Slot>::empty()) by {
            broadcast use vstd::seq_lib::group_to_multiset_ensures;

            assert(h.slots@.to_multiset().len() == 0);
        }
        h
    }

    fn swap(&mut self, a: usize, b: usize)
        requires
            a < old(self).slots.len(),
            b < old(self).slots.len(),
        ensures
            final(self).slots@ == old(self).slots@.update(a as int, old(self).slots@[b as int]).update(
                b as int,
                old(self).slots@[a as int],
            ),
            final(self)@ == old(self)@,
    {
        let x = self.slots[a];
        let y = self.slots[b];
        self.slots[a] = y;
        self.slots[b] = x;
        proof {
            lemma_swap_multiset(old(self).slots@, a as int, b as int);
        }
    }

    /// Adds `slot` to the heap.
    pub fn push(&mut self, slot: Slot)
        requires
            old(self).wf(),
        ensures
            final(self).wf(),
            final(self)@ == old(self)@.insert(slot),
    {
        self.slots.push(slot);
        proof {
            vstd::seq_lib::to_multiset_build(old(self).slots@, slot);
        }
        let mut i: usize = self.slots.len() - 1;
        assert(ordered_but_above(self.slots@, i as int)) by {
            let s = self.slots@;
            assert forall|j: int| 0 < j < s.len() && j != i implies #[trigger] edge_ok(s, j) by {
                assert(edge_ok(old(self).slots@, j));
            }
        }
        while i > 0 && !self.slots[(i - 1) / 2].precedes(&self.slots[i])
            invariant
                i < self.slots.len(),
                self@ == old(self)@.insert(slot),
                ordered_but_above(self.slots@, i as int),
            decreases i,
        {
            let p: usize = (i - 1) / 2;
            let ghost before = self.slots@;
            self.swap(p, i);
            proof {
                let after = self.slots@;
                assert(before[i as int].before(before[p as int]));
                assert forall|j: int| 0 < j < after.len() && j != p implies #[trigger] edge_ok(
                    after,
                    j,
                ) by {
                    let q = (j - 1) / 2;
                    if j == i {
                    } else if q == i {
                        assert(before[p as int].before(before[j]));
                    } else if q == p {
                        assert(edge_ok(before, j));
                    } else {
                        assert(edge_ok(before, j));
                    }
                }
                assert forall|j: int|
                    0 < j < after.len() && (j - 1) / 2 == p && p > 0 implies after[(p - 1)
                    / 2].before(#[trigger] after[j]) by {
                    assert(edge_ok(before, p as int));
                    if j != i {
                        assert(edge_ok(before, j));
                    }
                }
            }
            i = p;
        }
        proof {
            let s = self.slots@;
            assert forall|j: int| 0 < j < s.len() implies #[trigger] edge_ok(s, j) by {}
        }
    }

    /// Takes out the slot that comes before all others.
    pub fn pop(&mut self) -> (r: Option<Slot>)
        requires
            old(self).wf(),
        ensures
            final(self).wf(),
            match r {
                Some(slot) => {
                    &&& old(self)@.count(slot) > 0
                    &&& final(self)@ == old(self)@.remove(slot)
                    &&& forall|other: Slot| old(self)@.count(other) > 0 ==> slot.before(other)
                },
                None => old(self)@.len() == 0 && final(self)@ == old(self)@,
            },
    {
        proof {
            broadcast use vstd::seq_lib::group_to_multiset_ensures;

        }
        if self.slots.len() == 0 {
            return None;
        }
        let top = self.slots[0];
        let ghost s0 = self.slots@;
        proof {
            assert(s0.contains(top));
            assert forall|other: Slot| s0.to_multiset().count(other) > 0 implies top.before(
                other,
            ) by {
                assert(s0.contains(other));
                let j = choose|j: int| 0 <= j < s0.len() && s0[j] == other;
                lemma_root_first(s0, j);
            }
        }
        let last = self.slots.pop().unwrap();
        let ghost s1 = self.slots@;
        proof {
            assert(s1 =~= s0.remove(s0.len() - 1));
            vstd::seq_lib::to_multiset_remove(s0, s0.len() - 1);
        }
        if self.slots.len() == 0 {
            proof {
                assert(s0.to_multiset().remove(last) =~= s0.to_multiset().remove(top));
            }
            return Some(top);
        }
        self.slots[0] = last;
        let ghost s2 = self.slots@;
        proof {
            vstd::seq_lib::to_multiset_update(s1, 0, last);
            assert(s1.contains(top)) by {
                assert(s1[0] == top);
            }
            assert(s2.to_multiset() =~= s0.to_multiset().remove(top));
            assert forall|j: int| 0 < j < s2.len() && (j - 1) / 2 != 0 implies #[trigger] edge_ok(
                s2,
                j,
            ) by {
                assert(edge_ok(s0, j));
            }
        }
        let n: usize = self.slots.len();
        let mut i: usize = 0;
        while i < n / 2
            invariant
                n == self.slots.len(),
                self@ == old(self)@.remove(top),
                ordered_but_below(self.slots@, i as int),
            ensures
                heap_ordered(self.slots@),
            decreases n - i,
        {
            let left: usize = 2 * i + 1;
            let right: usize = left + 1;
            let mut least: usize = left;
            if right < n && self.slots[right].precedes(&self.slots[left]) {
                least = right;
            }
            let ghost before = self.slots@;
            if self.slots[i].precedes(&self.slots[least]) {
                proof {
                    assert forall|j: int| 0 < j < before.len() implies #[trigger] edge_ok(
                        before,
                        j,
                    ) by {
                        if (j - 1) / 2 == i {
                            assert(j == left || j == right);
                        }
                    }
                }
                break ;
            }
            self.swap(i, least);
            proof {
                let after = self.slots@;
                assert(before[least as int].before(before[i as int]));
                assert forall|j: int|
                    0 < j < after.len() && (j - 1) / 2 != least implies #[trigger] edge_ok(
                    after,
                    j,
                ) by {
                    let q = (j - 1) / 2;
                    if q == i {
                        assert(j == left || j == right);
                    } else if j == i {
                        assert(before[(i - 1) / 2].before(before[least as int]));
                    } else {
                        assert(edge_ok(before, j));
                    }
                }
                assert forall|j: int|
                    0 < j < after.len() && (j - 1) / 2 == least && least > 0 implies after[(least
                    - 1) / 2].before(#[trigger] after[j]) by {
                    assert(edge_ok(before, j));
                }
            }
            i = least;
        }
        proof {
            let s = self.slots@;
            if i >= n / 2 {
                assert forall|j: int| 0 < j < s.len() implies #[trigger] edge_ok(s, j) by {}
            }
        }
        Some(top)
    }
}

} // verus!
