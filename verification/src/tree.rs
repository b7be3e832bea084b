use crate::closed::MapSearchTree;
use crate::puzzle::Puzzle;
use crate::sizer::PuzzleSizer;
use std::collections::HashMap;
use vstd::prelude::*;

verus! {

/// How much of a node's horizontal extent lies inside the viewport.
#[derive(Clone, Copy, PartialEq, Eq, Structural, Debug)]
pub enum Visibility {
    Full,
    Partial,
    Hidden,
}

/// A node of the drawn tree. The tree is kept level by level in one vector:
/// the children of a node stand side by side, behind the node itself.
#[derive(Clone, Copy, Debug)]
pub struct DrawTreeNode {
    pub puzzle: Puzzle,
    /// The number of edges between the root and the node.
    pub depth: usize,
    /// Index of the parent; the root names itself.
    pub parent: usize,
    /// Index of the first child; the others follow it.
    pub first_child: usize,
    pub child_count: usize,
    pub center_x: i32,
    pub min_x: i32,
    pub max_x: i32,
    pub draw_x: i32,
    pub visibility: Visibility,
    pub on_path: bool,
}

/// One recorded edge: a state, and the state it was reached from with the
/// cost of reaching it.
pub type Edge = (Puzzle, (Puzzle, i32));

/// The entry says of a state other than itself where it was reached from.
pub open spec fn links(e: Edge) -> bool {
    e.0 != e.1.0
}

/// The states that `entries` records as reached from `p`, in the order of
/// the entries.
pub open spec fn children_of(entries: Seq<Edge>, p: Puzzle) -> Seq<Puzzle>
    decreases entries.len(),
{
    if entries.len() == 0 {
        Seq::empty()
    } else {
        let rest = children_of(entries.drop_last(), p);
        let e = entries.last();
        if links(e) && e.1.0 == p {
            rest.push(e.0)
        } else {
            rest
        }
    }
}

/// No state is recorded with two parents, and `root` with none: what hangs
/// on `root` is then a tree.
pub open spec fn edges_valid(entries: Seq<Edge>, root: Puzzle) -> bool {
    &&& forall|i: int| 0 <= i < entries.len() && links(#[trigger] entries[i]) ==> entries[i].0 != root
    &&& forall|i: int, j: int|
        0 <= i < j < entries.len() && links(#[trigger] entries[i]) && links(#[trigger] entries[j])
            ==> entries[i].0 != entries[j].0
}

/// The edges of a tree before its nodes are put in level order: the states
/// numbered in the order in which the entries name them, and for each state
/// the numbers of its children.
pub struct Adjacency {
    pub puzzles: Vec<Puzzle>,
    pub kids: Vec<Vec<usize>>,
}

impl Adjacency {
    /// The states of the children of the state with number `t`.
    pub open spec fn kid_puzzles(&self, t: int) -> Seq<Puzzle> {
        Seq::new(self.kids@[t]@.len(), |i: int| self.puzzles@[self.kids@[t]@[i] as int])
    }

    /// Every state has one number, every child number names a state other
    /// than the first, and no number is a child twice.
    pub open spec fn wf(&self) -> bool {
        &&& self.puzzles@.len() > 0
        &&& self.kids@.len() == self.puzzles@.len()
        &&& forall|a: int, b: int|
            0 <= a < b < self.puzzles@.len() ==> self.puzzles@[a] != self.puzzles@[b]
        &&& forall|t: int, i: int|
            0 <= t < self.kids@.len() && 0 <= i < self.kids@[t]@.len() ==> 0
                < #[trigger] self.kids@[t]@[i] < self.puzzles@.len()
        &&& forall|t: int, i: int, u: int, j: int|
            0 <= t < self.kids@.len() && 0 <= i < self.kids@[t]@.len() && 0 <= u < self.kids@.len()
                && 0 <= j < self.kids@[u]@.len() && #[trigger] self.kids@[t]@[i]
                == #[trigger] self.kids@[u]@[j] ==> t == u && i == j
    }

    /// The numbering holds the edges of `entries`, with `root` as number 0.
    pub open spec fn holds(&self, entries: Seq<Edge>, root: Puzzle) -> bool {
        &&& self.puzzles@[0] == root
        &&& forall|t: int|
            0 <= t < self.puzzles@.len() ==> #[trigger] self.kid_puzzles(t) == children_of(
                entries,
                self.puzzles@[t],
            )
    }
}

/// What `children_of` makes of one more entry.
pub proof fn lemma_children_of_push(entries: Seq<Edge>, e: Edge, p: Puzzle)
    ensures
        children_of(entries.push(e), p) == if links(e) && e.1.0 == p {
            children_of(entries, p).push(e.0)
        } else {
            children_of(entries, p)
        },
{
    assert(entries.push(e).drop_last() =~= entries);
}

/// A state that no entry names as a parent has no children.
pub proof fn lemma_no_children(entries: Seq<Edge>, p: Puzzle)
    requires
        forall|j: int| 0 <= j < entries.len() && links(#[trigger] entries[j]) ==> entries[j].1.0 != p,
    ensures
        children_of(entries, p) == Seq::<Puzzle>::empty(),
    decreases entries.len(),
{
    if entries.len() > 0 {
        let rest = entries.drop_last();
        assert forall|j: int| 0 <= j < rest.len() && links(#[trigger] rest[j]) implies rest[j].1.0
            != p by {
            assert(rest[j] == entries[j]);
        }
        lemma_no_children(rest, p);
        assert(entries.last() == entries[entries.len() - 1]);
    }
}

/// The numbering while the entries are read.
struct Numbering {
    puzzles: Vec<Puzzle>,
    kids: Vec<Vec<usize>>,
    has_parent: Vec<bool>,
    slot_of: HashMap<u128, usize>,
}

impl Numbering {
    spec fn registered(&self, p: Puzzle) -> bool {
        self.slot_of@.contains_key(p.key_of())
    }

    spec fn kid_puzzles(&self, t: int) -> Seq<Puzzle> {
        Seq::new(self.kids@[t]@.len(), |i: int| self.puzzles@[self.kids@[t]@[i] as int])
    }

    spec fn inv(&self) -> bool {
        let n = self.puzzles@.len();
        &&& n > 0
        &&& self.kids@.len() == n
        &&& self.has_parent@.len() == n
        &&& !self.has_parent@[0]
        &&& forall|k: u128| #[trigger]
            self.slot_of@.contains_key(k) ==> self.slot_of@[k] < n && self.puzzles@[self.slot_of@[k] as int].key_of()
                == k
        &&& forall|t: int|
            0 <= t < n ==> self.slot_of@.contains_key((#[trigger] self.puzzles@[t]).key_of())
                && self.slot_of@[self.puzzles@[t].key_of()] == t
        &&& forall|t: int, i: int|
            0 <= t < n && 0 <= i < self.kids@[t]@.len() ==> 0 < #[trigger] self.kids@[t]@[i] < n
                && self.has_parent@[self.kids@[t]@[i] as int]
        &&& forall|t: int, i: int, u: int, j: int|
            0 <= t < n && 0 <= i < self.kids@[t]@.len() && 0 <= u < n && 0 <= j
                < self.kids@[u]@.len() && #[trigger] self.kids@[t]@[i]
                == #[trigger] self.kids@[u]@[j] ==> t == u && i == j
    }

    /// The numbering says of the entries in `seen` what it should.
    spec fn reflects(&self, seen: Seq<Edge>, root: Puzzle) -> bool {
        let n = self.puzzles@.len();
        &&& self.puzzles@[0] == root
        &&& forall|j: int|
            0 <= j < seen.len() && links(#[trigger] seen[j]) ==> self.registered(seen[j].0)
                && self.registered(seen[j].1.0)
        &&& forall|t: int|
            0 <= t < n ==> (self.has_parent@[t] <==> exists|j: int|
                0 <= j < seen.len() && links(#[trigger] seen[j]) && seen[j].0
                    == self.puzzles@[t])
        &&& forall|t: int|
            0 <= t < n ==> #[trigger] self.kid_puzzles(t) == children_of(seen, self.puzzles@[t])
    }

    proof fn lemma_distinct(&self)
        requires
            self.inv(),
        ensures
            forall|a: int, b: int|
                0 <= a < b < self.puzzles@.len() ==> self.puzzles@[a] != self.puzzles@[b],
    {
        assert forall|a: int, b: int| 0 <= a < b < self.puzzles@.len() implies self.puzzles@[a]
            != self.puzzles@[b] by {
            assert(self.slot_of@[self.puzzles@[a].key_of()] == a);
            assert(self.slot_of@[self.puzzles@[b].key_of()] == b);
        }
    }

    /// The number of `p`, which gets the next free one where it has none.
    fn number(&mut self, p: Puzzle) -> (t: usize)
        requires
            old(self).inv(),
        ensures
            final(self).inv(),
            t < final(self).puzzles@.len(),
            final(self).puzzles@[t as int] == p,
            old(self).registered(p) ==> {
                &&& final(self).puzzles@ == old(self).puzzles@
                &&& final(self).kids@ == old(self).kids@
                &&& final(self).has_parent@ == old(self).has_parent@
                &&& final(self).slot_of@ == old(self).slot_of@
            },
            !old(self).registered(p) ==> {
                &&& t == old(self).puzzles@.len()
                &&& final(self).puzzles@ == old(self).puzzles@.push(p)
                &&& final(self).kids@.len() == old(self).kids@.len() + 1
                &&& forall|u: int|
                    0 <= u < old(self).kids@.len() ==> final(self).kids@[u] == old(self).kids@[u]
                &&& final(self).kids@[t as int]@.len() == 0
                &&& final(self).has_parent@ == old(self).has_parent@.push(false)
                &&& final(self).slot_of@ == old(self).slot_of@.insert(p.key_of(), t)
            },
    {
        broadcast use vstd::std_specs::hash::group_hash_axioms;

        let key = p.key();
        let found = match self.slot_of.get(&key) {
            Some(t) => Some(*t),
            None => None,
        };
        match found {
            Some(t) => {
                proof {
                    self.puzzles@[t as int].lemma_key_injective(p);
                }
                t
            },
            None => {
                let t = self.puzzles.len();
                self.puzzles.push(p);
                self.kids.push(Vec::new());
                self.has_parent.push(false);
                self.slot_of.insert(key, t);
                proof {
                    assert forall|u: int| 0 <= u < t implies self.kids@[u] == old(self).kids@[u] by {}
                    assert forall|u: int| 0 <= u <= t implies self.slot_of@.contains_key(
                        (#[trigger] self.puzzles@[u]).key_of(),
                    ) && self.slot_of@[self.puzzles@[u].key_of()] == u by {
                        if u < t {
                            assert(self.puzzles@[u] == old(self).puzzles@[u]);
                        }
                    }
                }
                t
            },
        }
    }
}

impl Adjacency {
    /// Numbers the states that `entries` names and gathers, for each, its
    /// children. `None` where some state is recorded with two parents, or
    /// `root` with one.
    pub fn collect(entries: &Vec<Edge>, root: &Puzzle) -> (r: Option<Adjacency>)
        ensures
            match r {
                Some(a) => edges_valid(entries@, *root) && a.wf() && a.holds(entries@, *root),
                None => !edges_valid(entries@, *root),
            },
    {
        broadcast use vstd::std_specs::hash::group_hash_axioms;

        let mut nb = Numbering {
            puzzles: Vec::new(),
            kids: Vec::new(),
            has_parent: Vec::new(),
            slot_of: HashMap::new(),
        };
        nb.puzzles.push(*root);
        nb.kids.push(Vec::new());
        nb.has_parent.push(false);
        nb.slot_of.insert(root.key(), 0);
        proof {
            let seen = entries@.take(0);
            assert(nb.kid_puzzles(0) =~= children_of(seen, *root));
        }
        let mut n: usize = 0;
        while n < entries.len()
            invariant
                n <= entries.len(),
                nb.inv(),
                nb.reflects(entries@.take(n as int), *root),
                edges_valid(entries@.take(n as int), *root),
            decreases entries.len() - n,
        {
            let ghost seen = entries@.take(n as int);
            let ghost next = entries@.take(n + 1);
            let e = entries[n];
            let state = e.0;
            let parent = e.1.0;
            proof {
                assert(next =~= seen.push(e));
                assert forall|j: int| 0 <= j < seen.len() implies next[j] == seen[j] by {}
            }
            if state != parent {
                let ghost nb0 = nb;
                let c = nb.number(state);
                let ghost nb1 = nb;
                let p = nb.number(parent);
                let ghost nb2 = nb;
                proof {
                    nb2.lemma_distinct();
                    // The numbering still says of `seen` what it should.
                    assert forall|t: int| 0 <= t < nb0.puzzles@.len() implies nb2.puzzles@[t]
                        == nb0.puzzles@[t] && nb2.kids@[t] == nb0.kids@[t] && nb2.has_parent@[t]
                        == nb0.has_parent@[t] by {
                        assert(nb1.puzzles@[t] == nb0.puzzles@[t]);
                    }
                    assert forall|j: int| 0 <= j < seen.len() && links(#[trigger] seen[j]) implies {
                        &&& nb0.registered(seen[j].0)
                        &&& nb0.registered(seen[j].1.0)
                        &&& nb2.registered(seen[j].0)
                        &&& nb2.registered(seen[j].1.0)
                    } by {}
                    assert forall|t: int| nb0.puzzles@.len() <= t < nb2.puzzles@.len() implies {
                        &&& !nb2.has_parent@[t]
                        &&& nb2.kids@[t]@.len() == 0
                        &&& !nb0.registered(nb2.puzzles@[t])
                    } by {}
                    assert forall|t: int| 0 <= t < nb2.puzzles@.len() implies #[trigger] nb2.kid_puzzles(
                        t,
                    ) == children_of(seen, nb2.puzzles@[t]) by {
                        if t < nb0.puzzles@.len() {
                            assert(nb0.kid_puzzles(t) == children_of(seen, nb0.puzzles@[t]));
                            assert forall|i: int| 0 <= i < nb0.kids@[t]@.len() implies nb2.puzzles@[nb0.kids@[t]@[i] as int]
                                == nb0.puzzles@[nb0.kids@[t]@[i] as int] by {
                                assert(0 < nb0.kids@[t]@[i] < nb0.puzzles@.len());
                            }
                            assert(nb2.kid_puzzles(t) =~= nb0.kid_puzzles(t));
                        } else {
                            lemma_no_children(seen, nb2.puzzles@[t]);
                            assert(nb2.kid_puzzles(t) =~= Seq::<Puzzle>::empty());
                        }
                    }
                    assert forall|t: int| 0 <= t < nb2.puzzles@.len() implies (nb2.has_parent@[t]
                        <==> exists|j: int|
                        0 <= j < seen.len() && links(#[trigger] seen[j]) && seen[j].0
                            == nb2.puzzles@[t]) by {
                        if t < nb0.puzzles@.len() {
                            assert(nb0.has_parent@[t] <==> exists|j: int|
                                0 <= j < seen.len() && links(#[trigger] seen[j]) && seen[j].0
                                    == nb0.puzzles@[t]);
                        }
                    }
                }
                if c == 0 || nb.has_parent[c] {
                    proof {
                        assert(next[n as int] == e);
                        if c != 0 {
                            let j = choose|j: int|
                                0 <= j < seen.len() && links(#[trigger] seen[j]) && seen[j].0
                                    == state;
                            assert(next[j] == seen[j]);
                            assert(entries@[j] == seen[j]);
                        }
                        assert(entries@[n as int] == e);
                    }
                    return None;
                }
                nb.has_parent[c] = true;
                nb.kids[p].push(c);
                proof {
                    let nb3 = nb;
                    assert(nb3.has_parent@ == nb2.has_parent@.update(c as int, true));
                    assert(nb3.kids@[p as int]@ == nb2.kids@[p as int]@.push(c));
                    assert forall|t: int| 0 <= t < nb3.kids@.len() && t != p implies nb3.kids@[t]
                        == nb2.kids@[t] by {}
                    assert(nb3.puzzles@ == nb2.puzzles@);
                    assert(nb3.slot_of@ == nb2.slot_of@);
                    assert forall|t: int, i: int|
                        0 <= t < nb3.kids@.len() && 0 <= i < nb3.kids@[t]@.len() implies 0
                        < #[trigger] nb3.kids@[t]@[i] < nb3.puzzles@.len()
                        && nb3.has_parent@[nb3.kids@[t]@[i] as int] by {
                        if t == p && i == nb2.kids@[t]@.len() {
                        } else {
                            assert(nb3.kids@[t]@[i] == nb2.kids@[t]@[i]);
                        }
                    }
                    assert forall|t: int, i: int, u: int, j: int|
                        0 <= t < nb3.kids@.len() && 0 <= i < nb3.kids@[t]@.len() && 0 <= u
                            < nb3.kids@.len() && 0 <= j < nb3.kids@[u]@.len()
                            && #[trigger] nb3.kids@[t]@[i]
                            == #[trigger] nb3.kids@[u]@[j] implies t == u && i == j by {
                        let new_t = t == p && i == nb2.kids@[p as int]@.len();
                        let new_u = u == p && j == nb2.kids@[p as int]@.len();
                        if !new_t {
                            assert(nb3.kids@[t]@[i] == nb2.kids@[t]@[i]);
                        }
                        if !new_u {
                            assert(nb3.kids@[u]@[j] == nb2.kids@[u]@[j]);
                        }
                    }
                    assert(nb3.inv());
                    // It says of `next` what it should.
                    assert forall|j: int| 0 <= j < next.len() && links(#[trigger] next[j]) implies nb3.registered(
                        next[j].0,
                    ) && nb3.registered(next[j].1.0) by {
                        if j < seen.len() {
                            assert(next[j] == seen[j]);
                        }
                    }
                    assert forall|t: int| 0 <= t < nb3.puzzles@.len() implies (nb3.has_parent@[t]
                        <==> exists|j: int|
                        0 <= j < next.len() && links(#[trigger] next[j]) && next[j].0
                            == nb3.puzzles@[t]) by {
                        if t == c {
                            assert(next[n as int] == e);
                        } else {
                            if nb3.has_parent@[t] {
                                let j = choose|j: int|
                                    0 <= j < seen.len() && links(#[trigger] seen[j]) && seen[j].0
                                        == nb2.puzzles@[t];
                                assert(next[j] == seen[j]);
                            }
                            if exists|j: int|
                                0 <= j < next.len() && links(#[trigger] next[j]) && next[j].0
                                    == nb3.puzzles@[t] {
                                let j = choose|j: int|
                                    0 <= j < next.len() && links(#[trigger] next[j]) && next[j].0
                                        == nb3.puzzles@[t];
                                assert(j < seen.len());
                                assert(seen[j] == next[j]);
                            }
                        }
                    }
                    assert forall|t: int| 0 <= t < nb3.puzzles@.len() implies #[trigger] nb3.kid_puzzles(
                        t,
                    ) == children_of(next, nb3.puzzles@[t]) by {
                        lemma_children_of_push(seen, e, nb3.puzzles@[t]);
                        assert(nb2.kid_puzzles(t) == children_of(seen, nb2.puzzles@[t]));
                        if t == p {
                            assert(nb3.kid_puzzles(t) =~= nb2.kid_puzzles(t).push(state));
                        } else {
                            assert(nb3.kid_puzzles(t) =~= nb2.kid_puzzles(t));
                        }
                    }
                    assert(edges_valid(next, *root)) by {
                        assert forall|i: int| 0 <= i < next.len() && links(#[trigger] next[i]) implies next[i].0
                            != *root by {
                            if i < seen.len() {
                                assert(next[i] == seen[i]);
                            }
                        }
                        assert forall|i: int, j: int|
                            0 <= i < j < next.len() && links(#[trigger] next[i]) && links(
                                #[trigger] next[j],
                            ) implies next[i].0 != next[j].0 by {
                            assert(next[i] == seen[i]);
                            if j < seen.len() {
                                assert(next[j] == seen[j]);
                            }
                        }
                    }
                }
            } else {
                proof {
                    assert forall|t: int| 0 <= t < nb.puzzles@.len() implies #[trigger] nb.kid_puzzles(
                        t,
                    ) == children_of(next, nb.puzzles@[t]) by {
                        lemma_children_of_push(seen, e, nb.puzzles@[t]);
                    }
                    assert forall|j: int| 0 <= j < next.len() && links(#[trigger] next[j]) implies nb.registered(
                        next[j].0,
                    ) && nb.registered(next[j].1.0) by {
                        assert(next[j] == seen[j]);
                    }
                    assert forall|t: int| 0 <= t < nb.puzzles@.len() implies (nb.has_parent@[t]
                        <==> exists|j: int|
                        0 <= j < next.len() && links(#[trigger] next[j]) && next[j].0
                            == nb.puzzles@[t]) by {
                        if nb.has_parent@[t] {
                            let j = choose|j: int|
                                0 <= j < seen.len() && links(#[trigger] seen[j]) && seen[j].0
                                    == nb.puzzles@[t];
                            assert(next[j] == seen[j]);
                        }
                        if exists|j: int|
                            0 <= j < next.len() && links(#[trigger] next[j]) && next[j].0
                                == nb.puzzles@[t] {
                            let j = choose|j: int|
                                0 <= j < next.len() && links(#[trigger] next[j]) && next[j].0
                                    == nb.puzzles@[t];
                            assert(seen[j] == next[j]);
                        }
                    }
                    assert(edges_valid(next, *root)) by {
                        assert forall|i: int| 0 <= i < next.len() && links(#[trigger] next[i]) implies next[i].0
                            != *root by {
                            assert(next[i] == seen[i]);
                        }
                        assert forall|i: int, j: int|
                            0 <= i < j < next.len() && links(#[trigger] next[i]) && links(
                                #[trigger] next[j],
                            ) implies next[i].0 != next[j].0 by {
                            assert(next[i] == seen[i]);
                            assert(next[j] == seen[j]);
                        }
                    }
                }
            }
            n += 1;
        }
        proof {
            assert(entries@.take(n as int) =~= entries@);
            nb.lemma_distinct();
        }
        let a = Adjacency { puzzles: nb.puzzles, kids: nb.kids };
        proof {
            assert forall|t: int| 0 <= t < a.puzzles@.len() implies #[trigger] a.kid_puzzles(t)
                == children_of(entries@, a.puzzles@[t]) by {
                assert(a.kid_puzzles(t) =~= nb.kid_puzzles(t));
            }
        }
        Some(a)
    }
}

/// Where a node stands in the tree.
pub struct Link {
    pub parent: usize,
    pub first_child: usize,
    pub child_count: usize,
    pub depth: usize,
}

impl DrawTreeNode {
    /// Where the node stands in the tree.
    pub open spec fn link(self) -> Link {
        Link {
            parent: self.parent,
            first_child: self.first_child,
            child_count: self.child_count,
            depth: self.depth,
        }
    }
}

/// Where each node stands in the tree.
pub open spec fn shape(nodes: Seq<DrawTreeNode>) -> Seq<Link> {
    nodes.map_values(|n: DrawTreeNode| n.link())
}

/// Node `c` is one of the children of node `p`.
pub open spec fn in_range(links: Seq<Link>, p: int, c: int) -> bool {
    links[p].first_child <= c < links[p].first_child + links[p].child_count
}

/// The children of node `i` stand behind it, within the vector.
pub open spec fn range_ok(links: Seq<Link>, i: int) -> bool {
    i < links[i].first_child && links[i].first_child + links[i].child_count <= links.len()
}

/// The children of node `i` stand right behind those of node `i - 1`.
pub open spec fn follows(links: Seq<Link>, i: int) -> bool {
    links[i].first_child == links[i - 1].first_child + links[i - 1].child_count
}

/// Node `i` is a child of the node it names as parent, which stands before
/// it and one level higher.
pub open spec fn hangs_at(links: Seq<Link>, i: int) -> bool {
    &&& links[i].parent < i
    &&& in_range(links, links[i].parent as int, i)
    &&& links[i].depth == links[links[i].parent as int].depth + 1
    &&& links[i].depth <= i
}

/// The links are those of a tree in level order: the root first, then its
/// children, then theirs, the children of each node side by side.
pub open spec fn well_linked(links: Seq<Link>) -> bool {
    &&& links.len() > 0
    &&& links[0].parent == 0
    &&& links[0].depth == 0
    &&& links[0].first_child == 1
    &&& forall|i: int| 0 <= i < links.len() ==> #[trigger] range_ok(links, i)
    &&& forall|i: int| 0 < i < links.len() ==> #[trigger] follows(links, i)
    &&& forall|i: int| 0 < i < links.len() ==> #[trigger] hangs_at(links, i)
    &&& forall|p: int, c: int|
        0 <= p < links.len() && #[trigger] in_range(links, p, c) ==> links[c].parent == p
}

/// The states of the children of node `i`, from the first to the last.
pub open spec fn child_puzzles(nodes: Seq<DrawTreeNode>, i: int) -> Seq<Puzzle> {
    Seq::new(
        nodes[i].child_count as nat,
        |k: int| nodes[nodes[i].first_child as int + k].puzzle,
    )
}

/// Node `i` lies on the way from node `g` up to the root.
pub open spec fn on_route(links: Seq<Link>, i: int, g: int) -> bool
    decreases g,
{
    if g == i {
        true
    } else if g <= 0 || links[g].parent >= g {
        false
    } else {
        on_route(links, i, links[g].parent as int)
    }
}

/// The marks are those of the route from the root to node `goal`; no node
/// is marked where there is no such node.
pub open spec fn route_marked(nodes: Seq<DrawTreeNode>, goal: Option<usize>) -> bool {
    forall|i: int|
        0 <= i < nodes.len() ==> ((#[trigger] nodes[i]).on_path <==> goal is Some && on_route(
            shape(nodes),
            i,
            goal->0 as int,
        ))
}

/// `goal` is the node that holds `path_end`; there is none where no node does.
pub open spec fn goal_found(nodes: Seq<DrawTreeNode>, goal: Option<usize>, path_end: Puzzle) -> bool {
    match goal {
        Some(g) => g < nodes.len() && nodes[g as int].puzzle == path_end,
        None => forall|i: int| 0 <= i < nodes.len() ==> (#[trigger] nodes[i]).puzzle != path_end,
    }
}

/// No node is placed or drawn yet.
pub open spec fn unplaced(nodes: Seq<DrawTreeNode>) -> bool {
    forall|i: int|
        0 <= i < nodes.len() ==> {
            &&& (#[trigger] nodes[i]).center_x == 0
            &&& nodes[i].min_x == 0
            &&& nodes[i].max_x == 0
            &&& nodes[i].draw_x == 0
            &&& nodes[i].visibility == Visibility::Hidden
        }
}

/// The nodes are the tree that `entries` records below `root`, with the
/// route to the node of `path_end` marked, where there is such a node.
pub open spec fn draws(
    nodes: Seq<DrawTreeNode>,
    goal: Option<usize>,
    entries: Seq<Edge>,
    root: Puzzle,
    path_end: Puzzle,
) -> bool {
    &&& well_linked(shape(nodes))
    &&& nodes[0].puzzle == root
    &&& forall|i: int, j: int|
        0 <= i < j < nodes.len() ==> (#[trigger] nodes[i]).puzzle != (#[trigger] nodes[j]).puzzle
    &&& forall|i: int|
        0 <= i < nodes.len() ==> #[trigger] child_puzzles(nodes, i) == children_of(
            entries,
            nodes[i].puzzle,
        )
    &&& goal_found(nodes, goal, path_end)
    &&& route_marked(nodes, goal)
}

/// A sequence of different numbers below `n` has no more than `n` members.
pub proof fn lemma_distinct_bounded(order: Seq<usize>, n: nat)
    requires
        order.no_duplicates(),
        forall|j: int| 0 <= j < order.len() ==> (#[trigger] order[j]) < n,
    ensures
        order.len() <= n,
{
    let as_int = order.map_values(|t: usize| t as int);
    assert(as_int.no_duplicates()) by {
        assert forall|a: int, b: int|
            0 <= a < as_int.len() && 0 <= b < as_int.len() && a != b implies as_int[a]
            != as_int[b] by {
            assert(order[a] != order[b]);
        }
    }
    as_int.unique_seq_to_set();
    let range = vstd::set_lib::set_int_range(0, n as int);
    vstd::set_lib::lemma_int_range(0, n as int);
    assert(as_int.to_set().subset_of(range)) by {
        assert forall|v: int| as_int.to_set().contains(v) implies range.contains(v) by {
            let j = choose|j: int| 0 <= j < as_int.len() && as_int[j] == v;
            assert(order[j] < n);
        }
    }
    vstd::set_lib::lemma_len_subset(as_int.to_set(), range);
}

/// The tree of a search as it is drawn.
pub struct DrawTree {
    pub nodes: Vec<DrawTreeNode>,
    /// Index of the node that holds the state at which the marked path ends.
    pub goal: Option<usize>,
    /// The scale for which the coordinates were computed last.
    pub coord_built_for: Option<PuzzleSizer>,
}

impl DrawTreeNode {
    /// A node that is not yet placed, nor marked, nor seen.
    pub fn new(puzzle: Puzzle) -> (node: DrawTreeNode)
        ensures
            node == (DrawTreeNode {
                puzzle,
                depth: 0,
                parent: 0,
                first_child: 0,
                child_count: 0,
                center_x: 0,
                min_x: 0,
                max_x: 0,
                draw_x: 0,
                visibility: Visibility::Hidden,
                on_path: false,
            }),
    {
        DrawTreeNode {
            puzzle,
            depth: 0,
            parent: 0,
            first_child: 0,
            child_count: 0,
            center_x: 0,
            min_x: 0,
            max_x: 0,
            draw_x: 0,
            visibility: Visibility::Hidden,
            on_path: false,
        }
    }
}

/// Node `j` holds the state with the number `order[j]`, and as many
/// children as that state has.
spec fn seated(adj: &Adjacency, nodes: Seq<DrawTreeNode>, order: Seq<usize>, j: int) -> bool {
    &&& order[j] < adj.puzzles@.len()
    &&& nodes[j].puzzle == adj.puzzles@[order[j] as int]
    &&& nodes[j].child_count == adj.kids@[order[j] as int]@.len()
    &&& !nodes[j].on_path
    &&& nodes[j].center_x == 0
    &&& nodes[j].min_x == 0
    &&& nodes[j].max_x == 0
    &&& nodes[j].draw_x == 0
    &&& nodes[j].visibility == Visibility::Hidden
}

/// Node `j` is the child that its parent's state has at the place where `j`
/// stands among the children.
spec fn placed(adj: &Adjacency, nodes: Seq<DrawTreeNode>, order: Seq<usize>, j: int) -> bool {
    let q = nodes[j].parent as int;
    let k = j - nodes[q].first_child;
    &&& q < j
    &&& 0 <= k < nodes[q].child_count
    &&& order[j] == adj.kids@[order[q] as int]@[k]
    &&& nodes[j].depth == nodes[q].depth + 1
    &&& nodes[j].depth <= j
}

/// The state of the arrangement when the children of the nodes before
/// `done` are all in place and, where `busy`, some of the children of node
/// `done` are.
spec fn level_inv(
    adj: &Adjacency,
    nodes: Seq<DrawTreeNode>,
    order: Seq<usize>,
    done: int,
    busy: bool,
) -> bool {
    let m = nodes.len() as int;
    let links = shape(nodes);
    let front = if done > 0 {
        nodes[done - 1].first_child + nodes[done - 1].child_count
    } else {
        1
    };
    &&& order.len() == m
    &&& m > 0
    &&& 0 <= done <= m
    &&& order[0] == 0
    &&& nodes[0].parent == 0
    &&& nodes[0].depth == 0
    &&& done > 0 ==> nodes[0].first_child == 1
    &&& order.no_duplicates()
    &&& forall|j: int| 0 <= j < m ==> #[trigger] seated(adj, nodes, order, j)
    &&& forall|j: int| 0 < j < m ==> #[trigger] placed(adj, nodes, order, j)
    &&& forall|j: int|
        0 < j < m ==> (#[trigger] nodes[j]).parent < done || (busy && nodes[j].parent == done)
    &&& forall|j: int| 0 <= j < done ==> #[trigger] range_ok(links, j)
    &&& forall|j: int| 0 < j < done ==> #[trigger] follows(links, j)
    &&& forall|p: int, c: int|
        0 <= p < done && #[trigger] in_range(links, p, c) ==> links[c].parent == p
    &&& if busy {
        &&& done < m
        &&& nodes[done].first_child == front
        &&& front <= m <= front + nodes[done].child_count
        &&& forall|c: int| front <= c < m ==> (#[trigger] nodes[c]).parent == done
    } else {
        m == front
    }
}

impl DrawTree {
    /// Puts the states of `adj` in level order, from the state with number 0.
    fn arrange(adj: &Adjacency, path_end: &Puzzle) -> (r: (DrawTree, Ghost<Seq<usize>>))
        requires
            adj.wf(),
        ensures
            well_linked(shape(r.0.nodes@)),
            r.0.coord_built_for is None,
            goal_found(r.0.nodes@, r.0.goal, *path_end),
            r.1@.len() == r.0.nodes@.len(),
            r.1@[0] == 0,
            forall|j: int|
                0 <= j < r.0.nodes@.len() ==> #[trigger] seated(adj, r.0.nodes@, r.1@, j),
            forall|i: int, j: int|
                0 <= i < j < r.0.nodes@.len() ==> (#[trigger] r.0.nodes@[i]).puzzle != (
                #[trigger] r.0.nodes@[j]).puzzle,
            forall|i: int|
                0 <= i < r.0.nodes@.len() ==> #[trigger] child_puzzles(r.0.nodes@, i)
                    == adj.kid_puzzles(r.1@[i] as int),
    {
        let mut nodes: Vec<DrawTreeNode> = Vec::new();
        let mut order: Vec<usize> = Vec::new();
        let mut goal: Option<usize> = None;
        let mut root = DrawTreeNode::new(adj.puzzles[0]);
        root.child_count = adj.kids[0].len();
        if adj.puzzles[0] == *path_end {
            goal = Some(0);
        }
        nodes.push(root);
        order.push(0);
        let mut i: usize = 0;
        while i < nodes.len()
            invariant
                adj.wf(),
                order@.len() == nodes@.len(),
                level_inv(adj, nodes@, order@, i as int, false),
                goal_found(nodes@, goal, *path_end),
            decreases adj.puzzles@.len() - i,
        {
            proof {
                assert forall|j: int| 0 <= j < order@.len() implies (#[trigger] order@[j])
                    < adj.puzzles@.len() by {
                    assert(seated(adj, nodes@, order@, j));
                }
                lemma_distinct_bounded(order@, adj.puzzles@.len() as nat);
                assert(seated(adj, nodes@, order@, i as int));
            }
            let t = order[i];
            let first = nodes.len();
            let count = adj.kids[t].len();
            let depth = nodes[i].depth;
            proof {
                if i > 0 {
                    assert(placed(adj, nodes@, order@, i as int));
                }
            }
            let ghost before = nodes@;
            nodes[i].first_child = first;
            proof {
                let now = nodes@;
                assert forall|j: int| 0 <= j < now.len() implies #[trigger] seated(
                    adj,
                    now,
                    order@,
                    j,
                ) by {
                    assert(seated(adj, before, order@, j));
                }
                assert forall|j: int| 0 < j < now.len() implies #[trigger] placed(adj, now, order@, j) by {
                    assert(placed(adj, before, order@, j));
                    assert(before[j].parent < i);
                }
                assert forall|j: int| 0 <= j < i implies #[trigger] range_ok(shape(now), j) by {
                    assert(range_ok(shape(before), j));
                }
                assert forall|j: int| 0 < j < i implies #[trigger] follows(shape(now), j) by {
                    assert(follows(shape(before), j));
                }
                assert forall|p: int, c: int|
                    0 <= p < i && #[trigger] in_range(shape(now), p, c) implies shape(
                    now,
                )[c].parent == p by {
                    assert(range_ok(shape(before), p));
                    assert(in_range(shape(before), p, c));
                }
            }
            let mut x: usize = 0;
            while x < count
                invariant
                    adj.wf(),
                    i < nodes@.len(),
                    x <= count,
                    t == order@[i as int],
                    t < adj.kids@.len(),
                    count == adj.kids@[t as int]@.len(),
                    count == nodes@[i as int].child_count,
                    depth == nodes@[i as int].depth,
                    depth <= i,
                    first == nodes@[i as int].first_child,
                    nodes@.len() == first + x,
                    order@.len() == nodes@.len(),
                    level_inv(adj, nodes@, order@, i as int, true),
                    goal_found(nodes@, goal, *path_end),
                decreases count - x,
            {
                let k = adj.kids[t][x];
                let mut node = DrawTreeNode::new(adj.puzzles[k]);
                let here = nodes.len();
                node.parent = i;
                node.depth = depth + 1;
                node.child_count = adj.kids[k].len();
                let ghost nodes0 = nodes@;
                let ghost order0 = order@;
                proof {
                    // The state with number `k` has no node yet.
                    assert forall|j: int| 0 <= j < order0.len() implies order0[j] != k by {
                        if order0[j] == k {
                            if j > 0 {
                                assert(placed(adj, nodes0, order0, j));
                                let q = nodes0[j].parent as int;
                                assert(seated(adj, nodes0, order0, q));
                                assert(order0[q] == order0[i as int]);
                            }
                        }
                    }
                    assert forall|j: int| 0 <= j < nodes0.len() implies (#[trigger] nodes0[j]).puzzle
                        != adj.puzzles@[k as int] by {
                        assert(seated(adj, nodes0, order0, j));
                    }
                }
                if adj.puzzles[k] == *path_end {
                    goal = Some(here);
                }
                nodes.push(node);
                order.push(k);
                proof {
                    let now = nodes@;
                    let m = now.len() - 1;
                    assert forall|j: int| 0 <= j < now.len() implies #[trigger] seated(
                        adj,
                        now,
                        order@,
                        j,
                    ) by {
                        if j < m {
                            assert(seated(adj, nodes0, order0, j));
                        }
                    }
                    assert forall|j: int| 0 < j < now.len() implies #[trigger] placed(adj, now, order@, j) by {
                        if j < m {
                            assert(placed(adj, nodes0, order0, j));
                        }
                    }
                    assert forall|j: int| 0 <= j < i implies #[trigger] range_ok(shape(now), j) by {
                        assert(range_ok(shape(nodes0), j));
                    }
                    assert forall|j: int| 0 < j < i implies #[trigger] follows(shape(now), j) by {
                        assert(follows(shape(nodes0), j));
                    }
                    assert forall|p: int, c: int|
                        0 <= p < i && #[trigger] in_range(shape(now), p, c) implies shape(
                        now,
                    )[c].parent == p by {
                        assert(range_ok(shape(nodes0), p));
                        assert(in_range(shape(nodes0), p, c));
                    }
                    assert forall|c: int| first <= c < now.len() implies (#[trigger] now[c]).parent
                        == i by {
                        if c < m {
                            assert(nodes0[c].parent == i);
                        }
                    }
                }
                x += 1;
            }
            proof {
                let now = nodes@;
                let links = shape(now);
                assert(range_ok(links, i as int));
                assert forall|j: int| 0 <= j < i + 1 implies #[trigger] range_ok(links, j) by {}
                assert forall|j: int| 0 < j < i + 1 implies #[trigger] follows(links, j) by {}
                assert forall|p: int, c: int|
                    0 <= p < i + 1 && #[trigger] in_range(links, p, c) implies links[c].parent
                    == p by {
                    if p == i {
                        assert(now[c].parent == i);
                    }
                }
            }
            i += 1;
        }
        proof {
            let now = nodes@;
            let links = shape(now);
            assert forall|j: int| 0 < j < links.len() implies #[trigger] hangs_at(links, j) by {
                assert(placed(adj, now, order@, j));
            }
            assert forall|a: int, b: int| 0 <= a < b < now.len() implies (#[trigger] now[a]).puzzle
                != (#[trigger] now[b]).puzzle by {
                assert(seated(adj, now, order@, a));
                assert(seated(adj, now, order@, b));
                assert(order@[a] != order@[b]);
            }
            assert forall|a: int| 0 <= a < now.len() implies #[trigger] child_puzzles(now, a)
                == adj.kid_puzzles(order@[a] as int) by {
                assert(seated(adj, now, order@, a));
                assert(range_ok(links, a));
                assert forall|k: int| 0 <= k < now[a].child_count implies now[now[a].first_child
                    + k].puzzle == adj.puzzles@[adj.kids@[order@[a] as int]@[k] as int] by {
                    let c = now[a].first_child + k;
                    assert(in_range(links, a, c));
                    assert(links[c].parent == a);
                    assert(placed(adj, now, order@, c));
                    assert(seated(adj, now, order@, c));
                }
                assert(child_puzzles(now, a) =~= adj.kid_puzzles(order@[a] as int));
            }
        }
        (DrawTree { nodes, goal, coord_built_for: None }, Ghost(order@))
    }
}

/// Only nodes up to `g` lie on the way from `g` to the root.
pub proof fn lemma_route_below(links: Seq<Link>, i: int, g: int)
    requires
        on_route(links, i, g),
        0 <= g,
    ensures
        i <= g,
    decreases g,
{
    if g != i {
        lemma_route_below(links, i, links[g].parent as int);
    }
}

/// The root lies on the way from every node.
pub proof fn lemma_route_has_root(links: Seq<Link>, g: int)
    requires
        well_linked(links),
        0 <= g < links.len(),
    ensures
        on_route(links, 0, g),
    decreases g,
{
    if g > 0 {
        assert(hangs_at(links, g));
        lemma_route_has_root(links, links[g].parent as int);
    }
}

/// With a node, its parent lies on the way from `g`.
pub proof fn lemma_route_has_parent(links: Seq<Link>, i: int, g: int)
    requires
        well_linked(links),
        0 < i,
        0 <= g < links.len(),
        on_route(links, i, g),
    ensures
        on_route(links, links[i].parent as int, g),
    decreases g,
{
    lemma_route_below(links, i, g);
    assert(hangs_at(links, g));
    if g == i {
        assert(on_route(links, links[i].parent as int, links[g].parent as int));
    } else {
        lemma_route_has_parent(links, i, links[g].parent as int);
    }
}

/// The nodes on the way from `g` lie no deeper than `g`, and only `g` as deep.
pub proof fn lemma_route_depth(links: Seq<Link>, i: int, g: int)
    requires
        well_linked(links),
        0 <= g < links.len(),
        on_route(links, i, g),
    ensures
        0 <= i <= g,
        links[i].depth <= links[g].depth,
        links[i].depth == links[g].depth ==> i == g,
    decreases g,
{
    if g != i {
        assert(hangs_at(links, g));
        lemma_route_depth(links, i, links[g].parent as int);
    }
}

/// Two nodes of one depth on the way from `g` are one node.
pub proof fn lemma_route_one_per_depth(links: Seq<Link>, i: int, j: int, g: int)
    requires
        well_linked(links),
        0 <= g < links.len(),
        on_route(links, i, g),
        on_route(links, j, g),
        links[i].depth == links[j].depth,
    ensures
        i == j,
    decreases g,
{
    lemma_route_depth(links, i, g);
    lemma_route_depth(links, j, g);
    if g != i && g != j {
        assert(hangs_at(links, g));
        lemma_route_one_per_depth(links, i, j, links[g].parent as int);
    }
}

/// The way from `g` has a node at every depth up to that of `g`.
pub proof fn lemma_route_every_depth(links: Seq<Link>, g: int, d: int) -> (i: int)
    requires
        well_linked(links),
        0 <= g < links.len(),
        0 <= d <= links[g].depth,
    ensures
        0 <= i <= g,
        on_route(links, i, g),
        links[i].depth == d,
    decreases g,
{
    if d == links[g].depth {
        g
    } else {
        assert(hangs_at(links, g));
        lemma_route_every_depth(links, links[g].parent as int, d)
    }
}

/// Node `i` is marked as lying on the path.
pub open spec fn marked(nodes: Seq<DrawTreeNode>, i: int) -> bool {
    nodes[i].on_path
}

/// Some node at depth `d` is marked.
pub open spec fn marked_at(nodes: Seq<DrawTreeNode>, d: int) -> bool {
    exists|i: int| 0 <= i < nodes.len() && (#[trigger] nodes[i]).on_path && nodes[i].depth == d
}

/// With a marked node other than the root, its parent is marked.
pub proof fn lemma_marked_parent(nodes: Seq<DrawTreeNode>, goal: Option<usize>, i: int)
    requires
        well_linked(shape(nodes)),
        route_marked(nodes, goal),
        goal is Some ==> goal->0 < nodes.len(),
        0 < i < nodes.len(),
        nodes[i].on_path,
    ensures
        nodes[i].parent < i,
        nodes[nodes[i].parent as int].on_path,
{
    let links = shape(nodes);
    let p = nodes[i].parent as int;
    assert(hangs_at(links, i));
    assert(links[i].parent == p);
    assert(goal is Some && on_route(links, i, goal->0 as int));
    lemma_route_has_parent(links, i, goal->0 as int);
    assert(on_route(links, p, goal->0 as int));
    assert(nodes[p].on_path);
}

/// Two marked nodes of one depth are one node, and no marked node lies
/// deeper than the goal node.
pub proof fn lemma_marked_once(nodes: Seq<DrawTreeNode>, goal: Option<usize>, i: int, j: int)
    requires
        well_linked(shape(nodes)),
        route_marked(nodes, goal),
        goal is Some ==> goal->0 < nodes.len(),
        0 <= i < nodes.len(),
        0 <= j < nodes.len(),
        nodes[i].on_path,
        nodes[j].on_path,
    ensures
        goal is Some,
        nodes[i].depth <= nodes[goal->0 as int].depth,
        nodes[i].depth == nodes[j].depth ==> i == j,
{
    let links = shape(nodes);
    let g = goal->0 as int;
    assert(goal is Some && on_route(links, i, g));
    assert(goal is Some && on_route(links, j, g));
    lemma_route_depth(links, i, g);
    assert(links[i].depth == nodes[i].depth);
    assert(links[g].depth == nodes[g].depth);
    if nodes[i].depth == nodes[j].depth {
        assert(links[j].depth == nodes[j].depth);
        lemma_route_one_per_depth(links, i, j, g);
    }
}

/// The root and the goal node are marked, and at every depth down to that
/// of the goal node some node is.
pub proof fn lemma_marked_down_to_goal(nodes: Seq<DrawTreeNode>, goal: Option<usize>, d: int)
    requires
        well_linked(shape(nodes)),
        route_marked(nodes, goal),
        goal is Some,
        goal->0 < nodes.len(),
        0 <= d <= nodes[goal->0 as int].depth,
    ensures
        nodes[0].on_path,
        nodes[goal->0 as int].on_path,
        marked_at(nodes, d),
{
    let links = shape(nodes);
    let g = goal->0 as int;
    lemma_route_has_root(links, g);
    assert(nodes[0].on_path);
    assert(on_route(links, g, g));
    assert(nodes[g].on_path);
    assert(links[g].depth == nodes[g].depth);
    let i = lemma_route_every_depth(links, g, d);
    assert(links[i].depth == nodes[i].depth);
    assert(nodes[i].on_path);
}

/// The marked nodes are one path from the root down to the goal node: the
/// root and the goal node are marked, with a marked node its parent is, no
/// marked node lies deeper than the goal node, and at every depth down to
/// that of the goal node exactly one node is marked. Without a goal node no
/// node is marked.
pub proof fn lemma_marked_path(nodes: Seq<DrawTreeNode>, goal: Option<usize>)
    requires
        well_linked(shape(nodes)),
        route_marked(nodes, goal),
        goal is Some ==> goal->0 < nodes.len(),
    ensures
        goal is None ==> forall|i: int| 0 <= i < nodes.len() ==> !#[trigger] marked(nodes, i),
        goal is Some ==> {
            let g = goal->0 as int;
            &&& marked(nodes, 0)
            &&& marked(nodes, g)
            &&& forall|i: int|
                0 < i < nodes.len() && #[trigger] marked(nodes, i) ==> marked(
                    nodes,
                    nodes[i].parent as int,
                )
            &&& forall|i: int|
                0 <= i < nodes.len() && #[trigger] marked(nodes, i) ==> nodes[i].depth
                    <= nodes[g].depth
            &&& forall|i: int, j: int|
                0 <= i < nodes.len() && 0 <= j < nodes.len() && #[trigger] marked(nodes, i)
                    && #[trigger] marked(nodes, j) && nodes[i].depth == nodes[j].depth ==> i == j
            &&& forall|d: int| 0 <= d <= nodes[g].depth ==> #[trigger] marked_at(nodes, d)
        },
{
    if goal is Some {
        let g = goal->0 as int;
        lemma_marked_down_to_goal(nodes, goal, 0);
        assert forall|i: int| 0 < i < nodes.len() && #[trigger] marked(nodes, i) implies marked(
            nodes,
            nodes[i].parent as int,
        ) by {
            lemma_marked_parent(nodes, goal, i);
        }
        assert forall|i: int| 0 <= i < nodes.len() && #[trigger] marked(nodes, i) implies nodes[i].depth
            <= nodes[g].depth by {
            lemma_marked_once(nodes, goal, i, i);
        }
        assert forall|i: int, j: int|
            0 <= i < nodes.len() && 0 <= j < nodes.len() && #[trigger] marked(nodes, i)
                && #[trigger] marked(nodes, j) && nodes[i].depth == nodes[j].depth implies i
            == j by {
            lemma_marked_once(nodes, goal, i, j);
        }
        assert forall|d: int| 0 <= d <= nodes[g].depth implies #[trigger] marked_at(nodes, d) by {
            lemma_marked_down_to_goal(nodes, goal, d);
        }
    } else {
        assert forall|i: int| 0 <= i < nodes.len() implies !#[trigger] marked(nodes, i) by {
            assert(!nodes[i].on_path);
        }
    }
}

/// `after` differs from `before` in the marks alone.
pub open spec fn same_but_marks(before: Seq<DrawTreeNode>, after: Seq<DrawTreeNode>) -> bool {
    &&& after.len() == before.len()
    &&& forall|i: int|
        0 <= i < before.len() ==> (#[trigger] after[i]) == (DrawTreeNode {
            on_path: after[i].on_path,
            ..before[i]
        })
}

impl DrawTree {
    /// Marks the nodes on the way from the goal node to the root.
    fn mark_route(&mut self)
        requires
            well_linked(shape(old(self).nodes@)),
            old(self).goal is Some ==> old(self).goal->0 < old(self).nodes@.len(),
            forall|i: int|
                0 <= i < old(self).nodes@.len() ==> !(#[trigger] old(self).nodes@[i]).on_path,
        ensures
            final(self).goal == old(self).goal,
            final(self).coord_built_for == old(self).coord_built_for,
            same_but_marks(old(self).nodes@, final(self).nodes@),
            route_marked(final(self).nodes@, final(self).goal),
    {
        let ghost links = shape(self.nodes@);
        match self.goal {
            None => {},
            Some(g) => {
                let mut cur = g;
                proof {
                    assert forall|x: int| 0 <= x < self.nodes@.len() implies !(on_route(
                        links,
                        x,
                        g as int,
                    ) && !on_route(links, x, cur as int)) by {}
                }
                loop
                    invariant_except_break
                        forall|x: int|
                            0 <= x < self.nodes@.len() ==> ((#[trigger] self.nodes@[x]).on_path
                                <==> on_route(links, x, g as int) && !on_route(
                                links,
                                x,
                                cur as int,
                            )),
                    invariant
                        self.goal == Some(g),
                        self.coord_built_for == old(self).coord_built_for,
                        cur <= g < self.nodes@.len(),
                        links == shape(old(self).nodes@),
                        well_linked(links),
                        on_route(links, cur as int, g as int),
                        same_but_marks(old(self).nodes@, self.nodes@),
                    ensures
                        forall|x: int|
                            0 <= x < self.nodes@.len() ==> ((#[trigger] self.nodes@[x]).on_path
                                <==> on_route(links, x, g as int)),
                    decreases cur,
                {
                    let ghost before = self.nodes@;
                    self.nodes[cur].on_path = true;
                    proof {
                        assert(self.nodes@ == before.update(
                            cur as int,
                            DrawTreeNode { on_path: true, ..before[cur as int] },
                        ));
                    }
                    if cur == 0 {
                        proof {
                            assert forall|x: int| 0 <= x < self.nodes@.len() implies ((
                            #[trigger] self.nodes@[x]).on_path <==> on_route(links, x, g as int)) by {
                                if x != 0 {
                                    assert(before[x].on_path == self.nodes@[x].on_path);
                                    assert(!on_route(links, x, 0));
                                }
                            }
                        }
                        break ;
                    }
                    let up = self.nodes[cur].parent;
                    proof {
                        assert(hangs_at(links, cur as int));
                        assert(links[cur as int].parent == up);
                        lemma_route_has_parent(links, cur as int, g as int);
                        assert forall|x: int| 0 <= x < self.nodes@.len() implies ((
                        #[trigger] self.nodes@[x]).on_path <==> on_route(links, x, g as int)
                            && !on_route(links, x, up as int)) by {
                            if x == cur {
                                if on_route(links, x, up as int) {
                                    lemma_route_below(links, x, up as int);
                                }
                            } else {
                                assert(before[x].on_path == self.nodes@[x].on_path);
                            }
                        }
                    }
                    cur = up;
                }
            },
        }
        proof {
            assert(shape(self.nodes@) =~= links);
        }
    }

    /// The tree that `entries` records below `root`, in level order, with the
    /// way to the node of `path_end` marked. `None` where some state is
    /// recorded with two parents, or `root` with one: what hangs on `root`
    /// might then be no tree.
    pub fn build(entries: &Vec<Edge>, root: &Puzzle, path_end: &Puzzle) -> (r: Option<DrawTree>)
        ensures
            match r {
                Some(tree) => {
                    &&& edges_valid(entries@, *root)
                    &&& draws(tree.nodes@, tree.goal, entries@, *root, *path_end)
                    &&& unplaced(tree.nodes@)
                    &&& tree.coord_built_for is None
                },
                None => !edges_valid(entries@, *root),
            },
    {
        let adj = match Adjacency::collect(entries, root) {
            Some(adj) => adj,
            None => {
                return None;
            },
        };
        let (mut tree, Ghost(order)) = DrawTree::arrange(&adj, path_end);
        let ghost before = tree.nodes@;
        proof {
            assert forall|i: int| 0 <= i < before.len() implies !(#[trigger] before[i]).on_path by {
                assert(seated(&adj, before, order, i));
            }
        }
        tree.mark_route();
        proof {
            let now = tree.nodes@;
            assert(shape(now) =~= shape(before));
            assert(seated(&adj, before, order, 0));
            assert(now[0].puzzle == *root);
            assert forall|i: int| 0 <= i < now.len() implies {
                &&& (#[trigger] now[i]).center_x == 0
                &&& now[i].min_x == 0
                &&& now[i].max_x == 0
                &&& now[i].draw_x == 0
                &&& now[i].visibility == Visibility::Hidden
            } by {
                assert(seated(&adj, before, order, i));
            }
            assert forall|i: int, j: int| 0 <= i < j < now.len() implies (#[trigger] now[i]).puzzle
                != (#[trigger] now[j]).puzzle by {
                assert(before[i].puzzle != before[j].puzzle);
            }
            assert(goal_found(now, tree.goal, *path_end)) by {
                assert forall|i: int| 0 <= i < now.len() implies (#[trigger] now[i]).puzzle
                    == before[i].puzzle by {}
            }
            assert forall|i: int| 0 <= i < now.len() implies #[trigger] child_puzzles(now, i)
                == children_of(entries@, now[i].puzzle) by {
                assert(seated(&adj, before, order, i));
                assert(range_ok(shape(before), i));
                assert(child_puzzles(now, i) =~= child_puzzles(before, i));
                assert(adj.kid_puzzles(order[i] as int) == children_of(
                    entries@,
                    adj.puzzles@[order[i] as int],
                ));
            }
        }
        Some(tree)
    }

    /// The tree of the search record `tree`, with the way to the node of
    /// `path_end` marked.
    pub fn new_from_map_search_tree(tree: &MapSearchTree, path_end: &Puzzle) -> (r: Option<
        DrawTree,
    >)
        ensures
            match r {
                Some(t) => {
                    &&& edges_valid(tree.listing(), tree.source())
                    &&& draws(t.nodes@, t.goal, tree.listing(), tree.source(), *path_end)
                    &&& unplaced(t.nodes@)
                    &&& t.coord_built_for is None
                },
                None => !edges_valid(tree.listing(), tree.source()),
            },
    {
        DrawTree::build(tree.map(), tree.initial(), path_end)
    }
}

} // verus!
