use crate::heap::{MinHeap, Slot};
use crate::puzzle::Puzzle;
use std::collections::HashMap;
use vstd::prelude::*;
use vstd::std_specs::iter::IteratorSpec;

verus! {

/// A frontier record: a state, the state it was reached from, the number of
/// moves made so far and the estimate of the moves still to make.
#[derive(Clone, Copy, PartialEq, Eq, Structural, Debug)]
pub struct OpenNode {
    pub puzzle: Puzzle,
    pub parent: Puzzle,
    pub g: i32,
    pub h: i32,
}

impl OpenNode {
    /// The extraction priority: moves made plus moves estimated.
    pub open spec fn f(self) -> int {
        self.g + self.h
    }
}

/// `node` is the record of a live entry: its state has one, with the same `g`.
pub open spec fn matches_live(node: OpenNode, live: Map<Puzzle, (Puzzle, int)>) -> bool {
    live.contains_key(node.puzzle) && live[node.puzzle].1 == node.g
}

/// Index of the first record of `queue` that is the record of a live entry;
/// the length of `queue` when none is.
pub open spec fn first_live(queue: Seq<OpenNode>, live: Map<Puzzle, (Puzzle, int)>) -> int
    decreases queue.len(),
{
    if queue.len() == 0 {
        0
    } else if matches_live(queue[0], live) {
        0
    } else {
        1 + first_live(queue.drop_first(), live)
    }
}

/// Index at which a record of priority `f` enters `queue`: behind every
/// leading record whose priority is not larger.
pub open spec fn entry_point(queue: Seq<OpenNode>, f: int) -> int
    decreases queue.len(),
{
    if queue.len() == 0 || queue[0].f() > f {
        0
    } else {
        1 + entry_point(queue.drop_first(), f)
    }
}

/// The live entries after a push of `node`: its state gets the entry
/// (`node.parent`, `node.g`) unless it has one with a `g` that is not larger.
pub open spec fn live_after_push(live: Map<Puzzle, (Puzzle, int)>, node: OpenNode) -> Map<
    Puzzle,
    (Puzzle, int),
> {
    if live.contains_key(node.puzzle) && live[node.puzzle].1 <= node.g {
        live
    } else {
        live.insert(node.puzzle, (node.parent, node.g as int))
    }
}

/// The queue after a push of `node`.
pub open spec fn queue_after_push(queue: Seq<OpenNode>, node: OpenNode) -> Seq<OpenNode> {
    queue.insert(entry_point(queue, node.f()), node)
}

/// `list` holds every entry of `entries` once, and nothing else.
pub open spec fn lists(list: Seq<(Puzzle, (Puzzle, i32))>, entries: Map<Puzzle, (Puzzle, int)>) -> bool {
    &&& forall|i: int|
        0 <= i < list.len() ==> entries.contains_key((#[trigger] list[i]).0) && entries[list[i].0]
            == (list[i].1.0, list[i].1.1 as int)
    &&& forall|i: int, j: int|
        0 <= i < j < list.len() ==> (#[trigger] list[i]).0 != (#[trigger] list[j]).0
    &&& forall|p: Puzzle| #[trigger]
        entries.contains_key(p) ==> exists|i: int|
            0 <= i < list.len() && (#[trigger] list[i]).0 == p
}

/// Priorities never decrease along `queue`.
pub open spec fn sorted_by_f(queue: Seq<OpenNode>) -> bool {
    forall|i: int, j: int| 0 <= i < j < queue.len() ==> queue[i].f() <= queue[j].f()
}

/// Every live entry has its record in `queue`.
pub open spec fn backed(queue: Seq<OpenNode>, live: Map<Puzzle, (Puzzle, int)>) -> bool {
    forall|p: Puzzle| #[trigger]
        live.contains_key(p) ==> exists|i: int|
            0 <= i < queue.len() && #[trigger] queue[i].puzzle == p && queue[i].g == live[p].1
}

/// `first_live` is the only index with no live record before it and one at it.
pub proof fn lemma_first_live(queue: Seq<OpenNode>, live: Map<Puzzle, (Puzzle, int)>, k: int)
    requires
        0 <= k <= queue.len(),
        forall|i: int| 0 <= i < k ==> !matches_live(#[trigger] queue[i], live),
        k < queue.len() ==> matches_live(queue[k], live),
    ensures
        first_live(queue, live) == k,
    decreases queue.len(),
{
    if queue.len() > 0 && k > 0 {
        assert(!matches_live(queue[0], live));
        let rest = queue.drop_first();
        assert forall|i: int| 0 <= i < k - 1 implies !matches_live(#[trigger] rest[i], live) by {
            assert(rest[i] == queue[i + 1]);
        }
        lemma_first_live(rest, live, k - 1);
    }
}

/// Where `first_live` points.
pub proof fn lemma_first_live_is(queue: Seq<OpenNode>, live: Map<Puzzle, (Puzzle, int)>)
    ensures
        0 <= first_live(queue, live) <= queue.len(),
        forall|i: int| 0 <= i < first_live(queue, live) ==> !matches_live(#[trigger] queue[i], live),
        first_live(queue, live) < queue.len() ==> matches_live(
            queue[first_live(queue, live)],
            live,
        ),
    decreases queue.len(),
{
    if queue.len() > 0 && !matches_live(queue[0], live) {
        let rest = queue.drop_first();
        lemma_first_live_is(rest, live);
        let k = first_live(queue, live);
        assert forall|i: int| 0 <= i < k implies !matches_live(#[trigger] queue[i], live) by {
            if i > 0 {
                assert(queue[i] == rest[i - 1]);
            }
        }
    }
}

/// `entry_point` lies within the queue or at its end.
pub proof fn lemma_entry_point_range(queue: Seq<OpenNode>, f: int)
    ensures
        0 <= entry_point(queue, f) <= queue.len(),
    decreases queue.len(),
{
    if queue.len() > 0 && queue[0].f() <= f {
        lemma_entry_point_range(queue.drop_first(), f);
    }
}

/// Where `entry_point` points in a sorted queue: behind all records whose
/// priority is not larger than `f`, before all others.
pub proof fn lemma_entry_point(queue: Seq<OpenNode>, f: int)
    requires
        sorted_by_f(queue),
    ensures
        0 <= entry_point(queue, f) <= queue.len(),
        forall|i: int| 0 <= i < entry_point(queue, f) ==> (#[trigger] queue[i]).f() <= f,
        forall|i: int| entry_point(queue, f) <= i < queue.len() ==> (#[trigger] queue[i]).f() > f,
    decreases queue.len(),
{
    if queue.len() == 0 {
    } else if queue[0].f() > f {
        assert forall|i: int| 0 <= i < queue.len() implies (#[trigger] queue[i]).f() > f by {
            if i > 0 {
                assert(queue[0].f() <= queue[i].f());
            }
        }
    } else {
        let rest = queue.drop_first();
        assert(sorted_by_f(rest)) by {
            assert forall|i: int, j: int| 0 <= i < j < rest.len() implies rest[i].f() <= rest[j].f() by {
                assert(queue[i + 1].f() <= queue[j + 1].f());
            }
        }
        lemma_entry_point(rest, f);
        let e = entry_point(queue, f);
        assert forall|i: int| 0 <= i < e implies (#[trigger] queue[i]).f() <= f by {
            if i > 0 {
                assert(queue[i] == rest[i - 1]);
            }
        }
        assert forall|i: int| e <= i < queue.len() implies (#[trigger] queue[i]).f() > f by {
            assert(queue[i] == rest[i - 1]);
        }
    }
}

/// Of two pushes for one state, the second at a larger cost, the first stays
/// in force: the second leaves the live entries as they are, its record is
/// not the record of a live entry, and so it is passed over when records leave.
pub proof fn lemma_cheaper_push_stands(
    live: Map<Puzzle, (Puzzle, int)>,
    first: OpenNode,
    second: OpenNode,
)
    requires
        first.puzzle == second.puzzle,
        first.g < second.g,
    ensures
        ({
            let once = live_after_push(live, first);
            let twice = live_after_push(once, second);
            &&& twice == once
            &&& twice.contains_key(first.puzzle)
            &&& twice[first.puzzle].1 <= first.g
            &&& !live.contains_key(first.puzzle) ==> twice[first.puzzle] == (
                first.parent,
                first.g as int,
            )
            &&& !matches_live(second, twice)
        }),
{
}

/// The frontier of a search: for every state that was reached and not yet
/// taken out, the best way known to reach it, and a queue of records from
/// which the cheapest is taken.
///
/// A record is never removed when a better one for its state arrives: it
/// stays in the queue and is passed over when its turn comes. Among records
/// of equal priority the one pushed first leaves first.
pub struct OpenSet {
    heap: MinHeap,
    best: HashMap<u128, (Puzzle, Puzzle, i32)>,
    tickets: u64,
    order: Ghost<Seq<Slot>>,
}

impl OpenSet {
    /// The records, in the order in which they would leave.
    pub closed spec fn queue(&self) -> Seq<OpenNode> {
        self.order@.map_values(|s: Slot| s.node)
    }

    /// For each state that is open: where it was reached from, and in how many moves.
    pub closed spec fn live(&self) -> Map<Puzzle, (Puzzle, int)> {
        Map::new(
            |p: Puzzle| self.best@.contains_key(p.key_of()) && self.best@[p.key_of()].0 == p,
            |p: Puzzle| (self.best@[p.key_of()].1, self.best@[p.key_of()].2 as int),
        )
    }

    /// The number of records pushed so far.
    pub closed spec fn pushed(&self) -> nat {
        self.tickets as nat
    }

    /// The representation is consistent.
    pub closed spec fn wf(&self) -> bool {
        let o = self.order@;
        &&& self.heap.wf()
        &&& self.heap@ == o.to_multiset()
        &&& forall|i: int, j: int|
            0 <= i < j < o.len() ==> o[i].f < o[j].f || (o[i].f == o[j].f && o[i].ticket
                < o[j].ticket)
        &&& forall|i: int|
            0 <= i < o.len() ==> (#[trigger] o[i]).ticket < self.tickets && o[i].f == o[i].node.g
                + o[i].node.h
        &&& forall|k: u128| #[trigger]
            self.best@.contains_key(k) ==> self.best@[k].0.key_of() == k
        &&& backed(self.queue(), self.live())
    }

    /// What the representation guarantees of the queue and the live entries.
    pub proof fn lemma_wf(&self)
        requires
            self.wf(),
        ensures
            sorted_by_f(self.queue()),
            backed(self.queue(), self.live()),
            self.live().dom().finite(),
    {
        let o = self.order@;
        let q = self.queue();
        assert forall|i: int, j: int| 0 <= i < j < q.len() implies q[i].f() <= q[j].f() by {
            assert(o[i].f <= o[j].f);
            assert(o[i].ticket < self.tickets);
            assert(o[j].ticket < self.tickets);
        }
        broadcast use vstd::std_specs::hash::group_hash_axioms;

        let keys = self.best@.dom();
        let states = keys.map(|k: u128| self.best@[k].0);
        keys.lemma_map_finite(|k: u128| self.best@[k].0);
        assert(self.live().dom().subset_of(states)) by {
            assert forall|p: Puzzle| self.live().dom().contains(p) implies states.contains(p) by {
                assert(keys.contains(p.key_of()));
            }
        }
        vstd::set_lib::lemma_len_subset(self.live().dom(), states);
    }

    /// An empty frontier.
    pub fn new() -> (s: OpenSet)
        ensures
            s.wf(),
            s.queue() == Seq::<OpenNode>::empty(),
            s.live() == Map::<Puzzle, (Puzzle, int)>::empty(),
            s.pushed() == 0,
    {
        let s = OpenSet {
            heap: MinHeap::new(),
            best: HashMap::new(),
            tickets: 0,
            order: Ghost(Seq::empty()),
        };
        proof {
            broadcast use vstd::seq_lib::group_to_multiset_ensures;

            assert(s.order@.to_multiset() =~= vstd::multiset::Multiset::<Slot>::empty()) by {
                assert(s.order@.to_multiset().len() == 0);
            }
            assert(s.queue() =~= Seq::<OpenNode>::empty());
            assert(s.live() =~= Map::<Puzzle, (Puzzle, int)>::empty());
        }
        s
    }

    /// Puts a record into the queue. The live entry of its state becomes
    /// (`node.parent`, `node.g`) where the state had none, or one with a larger `g`.
    pub fn push(&mut self, node: OpenNode)
        requires
            old(self).wf(),
            old(self).pushed() < u64::MAX,
        ensures
            final(self).wf(),
            final(self).pushed() == old(self).pushed() + 1,
            final(self).queue() == queue_after_push(old(self).queue(), node),
            final(self).live() == live_after_push(old(self).live(), node),
    {
        broadcast use vstd::std_specs::hash::group_hash_axioms;

        let key = node.puzzle.key();
        let replace = match self.best.get(&key) {
            Some(entry) => entry.2 > node.g,
            None => true,
        };
        proof {
            if self.best@.contains_key(key) {
                self.best@[key].0.lemma_key_injective(node.puzzle);
            }
        }
        if replace {
            self.best.insert(key, (node.puzzle, node.parent, node.g));
        }
        let slot = Slot { f: node.g as i64 + node.h as i64, ticket: self.tickets, node };
        self.heap.push(slot);
        self.tickets = self.tickets + 1;
        proof {
            let o = old(self).order@;
            let q = old(self).queue();
            old(self).lemma_wf();
            lemma_entry_point(q, node.f());
            let pos = entry_point(q, node.f());
            let o2 = o.insert(pos, slot);
            self.order = Ghost(o2);
            vstd::seq_lib::to_multiset_insert(o, pos, slot);
            assert(self.queue() =~= q.insert(pos, node));
            assert forall|i: int, j: int| 0 <= i < j < o2.len() implies o2[i].f < o2[j].f || (
            o2[i].f == o2[j].f && o2[i].ticket < o2[j].ticket) by {
                if i < pos {
                    assert(q[i] == o[i].node);
                }
                if j > pos {
                    assert(q[j - 1] == o[j - 1].node);
                }
            }
            let live0 = old(self).live();
            let live1 = self.live();
            let expect = if live0.contains_key(node.puzzle) && live0[node.puzzle].1 <= node.g {
                live0
            } else {
                live0.insert(node.puzzle, (node.parent, node.g as int))
            };
            assert forall|p: Puzzle| live1.contains_key(p) == expect.contains_key(p) && (
            live1.contains_key(p) ==> live1[p] == expect[p]) by {
                if p.key_of() == key {
                    p.lemma_key_injective(node.puzzle);
                }
            }
            assert(live1 =~= expect);
            assert forall|p: Puzzle| #[trigger] live1.contains_key(p) implies exists|i: int|
                0 <= i < self.queue().len() && #[trigger] self.queue()[i].puzzle == p
                    && self.queue()[i].g == live1[p].1 by {
                if p == node.puzzle && live1[p].1 == node.g {
                    assert(self.queue()[pos] == node);
                } else {
                    assert(live0.contains_key(p));
                    let i = choose|i: int|
                        0 <= i < q.len() && #[trigger] q[i].puzzle == p && q[i].g == live0[p].1;
                    let i2 = if i < pos {
                        i
                    } else {
                        i + 1
                    };
                    assert(self.queue()[i2] == q[i]);
                }
            }
        }
    }

    /// The live entries: every open state once, with its parent and cost, in
    /// no particular order.
    pub fn iter(&self) -> (r: Vec<(Puzzle, (Puzzle, i32))>)
        requires
            self.wf(),
        ensures
            lists(r@, self.live()),
    {
        broadcast use vstd::std_specs::hash::group_hash_axioms;
        broadcast use vstd::std_specs::hash::axiom_spec_hash_map_iter;

        let mut out: Vec<(Puzzle, (Puzzle, i32))> = Vec::new();
        let ghost pairs = vstd::std_specs::hash::spec_hash_map_iter(&self.best).remaining();
        for pair in it: self.best.iter()
            invariant
                self.wf(),
                out@.len() == it.index(),
                it.seq() == pairs,
                pairs.no_duplicates(),
                forall|j: int|
                    0 <= j < out@.len() ==> (#[trigger] out@[j]) == (
                        (*pairs[j].1).0,
                        ((*pairs[j].1).1, (*pairs[j].1).2),
                    ),
        {
            let (_, entry) = pair;
            out.push((entry.0, (entry.1, entry.2)));
        }
        proof {
            let m = self.best@;
            let live = self.live();
            assert forall|i: int| 0 <= i < out@.len() implies live.contains_key(
                (#[trigger] out@[i]).0,
            ) && live[out@[i].0] == (out@[i].1.0, out@[i].1.1 as int) by {
                assert(m.contains_key(*pairs[i].0));
            }
            assert forall|i: int, j: int| 0 <= i < j < out@.len() implies (#[trigger] out@[i]).0 != (
            #[trigger] out@[j]).0 by {
                assert(m.contains_key(*pairs[i].0));
                assert(m.contains_key(*pairs[j].0));
                if out@[i].0 == out@[j].0 {
                    assert(*pairs[i].0 == *pairs[j].0);
                    assert(pairs[i] == pairs[j]);
                }
            }
            assert forall|p: Puzzle| #[trigger] live.contains_key(p) implies exists|i: int|
                0 <= i < out@.len() && (#[trigger] out@[i]).0 == p by {
                let k = p.key_of();
                assert(m.contains_key(k));
                assert(pairs.contains((&k, &m[k])));
                let i = choose|i: int| 0 <= i < pairs.len() && pairs[i] == (&k, &m[k]);
                assert(out@[i].0 == p);
            }
        }
        out
    }

    /// Takes out the first record of the queue that is the record of a live
    /// entry, together with every record before it, and removes that entry.
    /// `None`, and an empty queue, when no record is.
    pub fn pop(&mut self) -> (r: Option<OpenNode>)
        requires
            old(self).wf(),
        ensures
            final(self).wf(),
            final(self).pushed() == old(self).pushed(),
            ({
                let q = old(self).queue();
                let live = old(self).live();
                let k = first_live(q, live);
                if k < q.len() {
                    &&& r == Some(
                        OpenNode {
                            puzzle: q[k].puzzle,
                            parent: live[q[k].puzzle].0,
                            g: q[k].g,
                            h: q[k].h,
                        },
                    )
                    &&& final(self).queue() == q.skip(k + 1)
                    &&& final(self).live() == live.remove(q[k].puzzle)
                } else {
                    &&& r is None
                    &&& final(self).queue() == Seq::<OpenNode>::empty()
                    &&& final(self).live() == live
                }
            }),
    {
        broadcast use vstd::std_specs::hash::group_hash_axioms;
        broadcast use vstd::seq_lib::group_to_multiset_ensures;

        let ghost q0 = self.queue();
        let ghost live0 = self.live();
        let ghost taken: int = 0;
        loop
            invariant
                self.wf(),
                self.pushed() == old(self).pushed(),
                q0 == old(self).queue(),
                live0 == old(self).live(),
                self.live() == live0,
                0 <= taken <= q0.len(),
                self.queue() == q0.skip(taken),
                forall|i: int| 0 <= i < taken ==> !matches_live(#[trigger] q0[i], live0),
            decreases self.order@.len(),
        {
            let ghost o = self.order@;
            let ghost q = self.queue();
            proof {
                o.to_multiset_ensures();
                assert(self.heap@ == o.to_multiset());
            }
            match self.heap.pop() {
                None => {
                    proof {
                        assert(o.len() == 0);
                        assert(q0.skip(taken).len() == 0);
                        lemma_first_live(q0, live0, taken);
                        assert(self.queue() =~= Seq::<OpenNode>::empty());
                    }
                    return None;
                },
                Some(slot) => {
                    proof {
                        // The slot that left the heap is the head of the order.
                        assert(o.contains(slot));
                        let j = choose|j: int| 0 <= j < o.len() && o[j] == slot;
                        assert(o.contains(o[0]));
                        assert(slot.before(o[0]));
                        assert(j == 0);
                        self.order = Ghost(o.remove(0));
                        vstd::seq_lib::to_multiset_remove(o, 0);
                        assert(self.queue() =~= q.skip(1));
                        assert(q.skip(1) =~= q0.skip(taken + 1));
                        assert(q[0] == q0[taken]);
                        assert(q[0] == slot.node);
                    }
                    let key = slot.node.puzzle.key();
                    let found = match self.best.get(&key) {
                        Some(entry) => if entry.2 == slot.node.g {
                            Some(entry.1)
                        } else {
                            None
                        },
                        None => None,
                    };
                    proof {
                        if self.best@.contains_key(key) {
                            self.best@[key].0.lemma_key_injective(slot.node.puzzle);
                        }
                        assert(found is Some <==> matches_live(slot.node, live0));
                    }
                    match found {
                        Some(parent) => {
                            self.best.remove(&key);
                            proof {
                                lemma_first_live(q0, live0, taken);
                                let live1 = self.live();
                                let expect = live0.remove(slot.node.puzzle);
                                assert forall|p: Puzzle|
                                    live1.contains_key(p) == expect.contains_key(p) && (
                                    live1.contains_key(p) ==> live1[p] == expect[p]) by {
                                    if p.key_of() == key {
                                        p.lemma_key_injective(slot.node.puzzle);
                                    }
                                }
                                assert(live1 =~= expect);
                                let q1 = self.queue();
                                assert forall|p: Puzzle| #[trigger]
                                    live1.contains_key(p) implies exists|i: int|
                                    0 <= i < q1.len() && #[trigger] q1[i].puzzle == p && q1[i].g
                                        == live1[p].1 by {
                                    assert(live0.contains_key(p));
                                    let i = choose|i: int|
                                        0 <= i < q.len() && #[trigger] q[i].puzzle == p && q[i].g
                                            == live0[p].1;
                                    assert(i != 0);
                                    assert(q1[i - 1] == q[i]);
                                }
                            }
                            return Some(
                                OpenNode {
                                    puzzle: slot.node.puzzle,
                                    parent,
                                    g: slot.node.g,
                                    h: slot.node.h,
                                },
                            );
                        },
                        None => {
                            proof {
                                let q1 = self.queue();
                                assert forall|p: Puzzle| #[trigger]
                                    live0.contains_key(p) implies exists|i: int|
                                    0 <= i < q1.len() && #[trigger] q1[i].puzzle == p && q1[i].g
                                        == live0[p].1 by {
                                    let i = choose|i: int|
                                        0 <= i < q.len() && #[trigger] q[i].puzzle == p && q[i].g
                                            == live0[p].1;
                                    assert(i != 0);
                                    assert(q1[i - 1] == q[i]);
                                }
                                taken = taken + 1;
                            }
                        },
                    }
                },
            }
        }
    }
}

} // verus!
