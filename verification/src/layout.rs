use crate::sizer::PuzzleSizer;
use crate::tree::{
    follows, hangs_at, in_range, range_ok, shape, well_linked, DrawTree, DrawTreeNode, Link,
};
use vstd::prelude::*;

verus! {

/// The width of the extent of node `i`: that of a leaf where the node has no
/// children, else what its children take side by side with a gap between
/// neighbours.
pub open spec fn span(links: Seq<Link>, i: int, leaf: int, gap: int) -> int
    decreases links.len() - i, 1int, 0int,
{
    if 0 <= i < links.len() && range_ok(links, i) && links[i].child_count > 0 {
        spans(links, i, links[i].child_count as int, leaf, gap) - gap
    } else {
        leaf
    }
}

/// What the first `n` children of node `i` take side by side, each with a
/// gap behind it.
pub open spec fn spans(links: Seq<Link>, i: int, n: int, leaf: int, gap: int) -> int
    decreases links.len() - i, 0int, n,
{
    if 0 <= i < links.len() && range_ok(links, i) && 0 < n <= links[i].child_count {
        spans(links, i, n - 1, leaf, gap) + span(
            links,
            links[i].first_child as int + n - 1,
            leaf,
            gap,
        ) + gap
    } else {
        0
    }
}

/// The distance from the centre of node `i` to either end of its extent.
pub open spec fn half(links: Seq<Link>, i: int, sizer: PuzzleSizer) -> int {
    (span(links, i, sizer.leaf_width(), sizer.cell()) - 1) / 2
}

/// The extent of every node fits the coordinate type at this scale.
pub open spec fn fits(links: Seq<Link>, sizer: PuzzleSizer) -> bool {
    &&& sizer.wf()
    &&& forall|i: int|
        0 <= i < links.len() ==> #[trigger] span(links, i, sizer.leaf_width(), sizer.cell())
            <= i32::MAX
}

/// Node `i` has the width that its subtree takes, with its centre in the middle.
pub open spec fn sized(nodes: Seq<DrawTreeNode>, i: int, sizer: PuzzleSizer) -> bool {
    &&& nodes[i].max_x - nodes[i].min_x + 1 == span(
        shape(nodes),
        i,
        sizer.leaf_width(),
        sizer.cell(),
    )
    &&& nodes[i].center_x - nodes[i].min_x == nodes[i].max_x - nodes[i].center_x
}

/// Node `c` stands where its place among its siblings puts it: the first
/// child at the left end of its parent's extent, every other child one gap
/// behind the sibling before it.
pub open spec fn seated_at(nodes: Seq<DrawTreeNode>, c: int, sizer: PuzzleSizer) -> bool {
    let p = nodes[c].parent as int;
    if c == nodes[p].first_child {
        nodes[c].min_x == nodes[p].min_x
    } else {
        nodes[c].min_x == nodes[c - 1].max_x + sizer.cell() + 1
    }
}

/// The last child of node `p` ends where the extent of `p` ends.
pub open spec fn closed_by_last(nodes: Seq<DrawTreeNode>, p: int) -> bool {
    nodes[p].child_count > 0 ==> nodes[nodes[p].first_child + nodes[p].child_count - 1].max_x
        == nodes[p].max_x
}

/// The nodes are laid out at the scale of `sizer`: the root is centred at 0,
/// every node is as wide as its subtree needs, and the children of a node
/// fill its extent from end to end.
pub open spec fn laid_out(nodes: Seq<DrawTreeNode>, sizer: PuzzleSizer) -> bool {
    &&& nodes[0].center_x == 0
    &&& forall|i: int| 0 <= i < nodes.len() ==> #[trigger] sized(nodes, i, sizer)
    &&& forall|c: int| 0 < c < nodes.len() ==> #[trigger] seated_at(nodes, c, sizer)
    &&& forall|p: int| 0 <= p < nodes.len() ==> #[trigger] closed_by_last(nodes, p)
}

/// Every extent is at least as wide as a leaf and of odd width; what some
/// children of a node take is of even width and grows with their number.
pub proof fn lemma_span(links: Seq<Link>, i: int, n: int, leaf: int, gap: int)
    requires
        leaf >= 1,
        leaf % 2 == 1,
        gap >= 1,
        gap % 2 == 1,
    ensures
        span(links, i, leaf, gap) >= 1,
        span(links, i, leaf, gap) % 2 == 1,
        spans(links, i, n, leaf, gap) >= 0,
        spans(links, i, n, leaf, gap) % 2 == 0,
        0 <= i < links.len() && range_ok(links, i) && 0 < n <= links[i].child_count ==> spans(
            links,
            i,
            n,
            leaf,
            gap,
        ) >= spans(links, i, n - 1, leaf, gap) + 1 + gap,
    decreases links.len() - i, 1int, n,
{
    if 0 <= i < links.len() && range_ok(links, i) {
        if 0 < n <= links[i].child_count {
            lemma_span(links, i, n - 1, leaf, gap);
            lemma_span(links, links[i].first_child as int + n - 1, 0, leaf, gap);
        }
        if links[i].child_count > 0 {
            let k = links[i].child_count as int;
            lemma_spans_all(links, i, k, leaf, gap);
            assert(k * (1 + gap) >= 1 + gap) by (nonlinear_arith)
                requires
                    k >= 1,
                    gap >= 1,
            ;
        }
    }
}

/// What the first `n` children of a node take is even, and at least a leaf
/// and a gap wide where `n > 0`.
proof fn lemma_spans_all(links: Seq<Link>, i: int, n: int, leaf: int, gap: int)
    requires
        leaf >= 1,
        leaf % 2 == 1,
        gap >= 1,
        gap % 2 == 1,
        0 <= i < links.len(),
        range_ok(links, i),
        0 <= n <= links[i].child_count,
    ensures
        spans(links, i, n, leaf, gap) % 2 == 0,
        spans(links, i, n, leaf, gap) >= n * (1 + gap),
    decreases links.len() - i, 0int, n,
{
    if n > 0 {
        lemma_spans_all(links, i, n - 1, leaf, gap);
        lemma_span(links, links[i].first_child as int + n - 1, 0, leaf, gap);
        assert(n * (1 + gap) == (n - 1) * (1 + gap) + (1 + gap)) by (nonlinear_arith);
    }
}

/// What more children take is more.
pub proof fn lemma_spans_grow(links: Seq<Link>, i: int, a: int, b: int, leaf: int, gap: int)
    requires
        leaf >= 1,
        leaf % 2 == 1,
        gap >= 1,
        gap % 2 == 1,
        0 <= i < links.len(),
        range_ok(links, i),
        0 <= a <= b <= links[i].child_count,
    ensures
        spans(links, i, a, leaf, gap) <= spans(links, i, b, leaf, gap),
    decreases b - a,
{
    if a < b {
        lemma_spans_grow(links, i, a, b - 1, leaf, gap);
        lemma_span(links, i, b, leaf, gap);
    }
}

/// `after` differs from `before` in the horizontal placement alone.
pub open spec fn same_but_place(before: Seq<DrawTreeNode>, after: Seq<DrawTreeNode>) -> bool {
    &&& after.len() == before.len()
    &&& forall|i: int|
        0 <= i < before.len() ==> (#[trigger] after[i]) == (DrawTreeNode {
            center_x: after[i].center_x,
            min_x: after[i].min_x,
            max_x: after[i].max_x,
            ..before[i]
        })
}

/// Node `j` has its place: its width, and an extent within that of the root.
spec fn positioned(nodes: Seq<DrawTreeNode>, j: int, sizer: PuzzleSizer, reach: int) -> bool {
    &&& sized(nodes, j, sizer)
    &&& -reach <= nodes[j].min_x
    &&& nodes[j].max_x <= reach
}

impl DrawTree {
    /// The nodes are a tree in level order, the goal node is one of them, and
    /// where coordinates were computed they are those of a layout.
    pub open spec fn wf(&self) -> bool {
        &&& well_linked(shape(self.nodes@))
        &&& self.goal is Some ==> self.goal->0 < self.nodes@.len()
        &&& self.coord_built_for is Some ==> fits(shape(self.nodes@), self.coord_built_for->0)
            && laid_out(self.nodes@, self.coord_built_for->0)
    }

    /// For every node half the width of its extent less one: the distance
    /// from its centre to either end. `None` where some extent does not fit
    /// the coordinate type.
    fn measure(&self, sizer: &PuzzleSizer) -> (r: Option<Vec<i32>>)
        requires
            well_linked(shape(self.nodes@)),
            sizer.wf(),
        ensures
            match r {
                Some(h) => {
                    &&& fits(shape(self.nodes@), *sizer)
                    &&& h@.len() == self.nodes@.len()
                    &&& forall|i: int|
                        0 <= i < h@.len() ==> #[trigger] h@[i] == half(
                            shape(self.nodes@),
                            i,
                            *sizer,
                        )
                },
                None => !fits(shape(self.nodes@), *sizer),
            },
    {
        let n = self.nodes.len();
        let cell = sizer.puzzle_cell();
        let w = sizer.puzzle_center_offset();
        let ghost links = shape(self.nodes@);
        let ghost leaf = sizer.leaf_width();
        let ghost gap = sizer.cell();
        let mut halves: Vec<i32> = Vec::new();
        while halves.len() < n
            invariant
                halves@.len() <= n,
            decreases n - halves@.len(),
        {
            halves.push(0);
        }
        let mut i: usize = n;
        while i > 0
            invariant
                i <= n,
                n == self.nodes@.len(),
                halves@.len() == n,
                links == shape(self.nodes@),
                well_linked(links),
                sizer.wf(),
                leaf == sizer.leaf_width(),
                gap == sizer.cell(),
                cell == gap,
                w == sizer.center_offset(),
                2 * w + 1 <= i32::MAX,
                forall|j: int|
                    i <= j < n ==> #[trigger] halves@[j] == half(links, j, *sizer) && span(
                        links,
                        j,
                        leaf,
                        gap,
                    ) <= i32::MAX,
            decreases i,
        {
            i = i - 1;
            let count = self.nodes[i].child_count;
            let first = self.nodes[i].first_child;
            proof {
                assert(range_ok(links, i as int));
                assert(links[i as int].child_count == count);
                assert(links[i as int].first_child == first);
            }
            if count == 0 {
                halves[i] = w;
                proof {
                    assert(span(links, i as int, leaf, gap) == leaf);
                    assert(half(links, i as int, *sizer) == w);
                }
            } else {
                let mut acc: i64 = 0;
                let mut x: usize = 0;
                while x < count
                    invariant
                        x <= count,
                        i < n,
                        n == self.nodes@.len(),
                        halves@.len() == n,
                        links == shape(self.nodes@),
                        well_linked(links),
                        range_ok(links, i as int),
                        links[i as int].child_count == count,
                        links[i as int].first_child == first,
                        sizer.wf(),
                        leaf == sizer.leaf_width(),
                        gap == sizer.cell(),
                        cell == gap,
                        acc == spans(links, i as int, x as int, leaf, gap),
                        0 <= acc <= i32::MAX + gap,
                        forall|j: int|
                            i < j < n ==> #[trigger] halves@[j] == half(links, j, *sizer) && span(
                                links,
                                j,
                                leaf,
                                gap,
                            ) <= i32::MAX,
                    decreases count - x,
                {
                    let c = first + x;
                    proof {
                        lemma_span(links, c as int, 0, leaf, gap);
                        assert(halves@[c as int] == half(links, c as int, *sizer));
                    }
                    let width: i64 = 2 * (halves[c] as i64) + 1;
                    acc = acc + width + cell as i64;
                    if acc - cell as i64 > i32::MAX as i64 {
                        proof {
                            lemma_spans_grow(links, i as int, x + 1, count as int, leaf, gap);
                            assert(span(links, i as int, leaf, gap) > i32::MAX);
                        }
                        return None;
                    }
                    x += 1;
                }
                proof {
                    lemma_span(links, i as int, 0, leaf, gap);
                    assert(span(links, i as int, leaf, gap) == acc - gap);
                }
                halves[i] = ((acc - cell as i64 - 1) / 2) as i32;
                proof {
                    assert(halves@[i as int] == half(links, i as int, *sizer));
                }
            }
            proof {
                assert forall|j: int| i <= j < n implies #[trigger] halves@[j] == half(
                    links,
                    j,
                    *sizer,
                ) && span(links, j, leaf, gap) <= i32::MAX by {
                    if j > i {
                    }
                }
            }
        }
        proof {
            assert forall|j: int| 0 <= j < links.len() implies #[trigger] span(links, j, leaf, gap)
                <= i32::MAX by {
                assert(halves@[j] == half(links, j, *sizer));
            }
        }
        Some(halves)
    }
}

/// The children of the node before `i` end where the children of `i` begin,
/// and the root's begin right behind it.
proof fn lemma_front(links: Seq<Link>, i: int)
    requires
        well_linked(links),
        0 <= i < links.len(),
    ensures
        links[i].first_child == if i == 0 {
            1
        } else {
            links[i - 1].first_child + links[i - 1].child_count
        },
        i < links[i].first_child,
        links[i].first_child + links[i].child_count <= links.len(),
{
    assert(range_ok(links, i));
    if i > 0 {
        assert(follows(links, i));
    }
}

impl DrawTree {
    /// Places every node: the root at 0, the children of each node side by
    /// side from the left end of its extent.
    fn place(&mut self, sizer: &PuzzleSizer, halves: &Vec<i32>)
        requires
            well_linked(shape(old(self).nodes@)),
            fits(shape(old(self).nodes@), *sizer),
            halves@.len() == old(self).nodes@.len(),
            forall|i: int|
                0 <= i < halves@.len() ==> #[trigger] halves@[i] == half(
                    shape(old(self).nodes@),
                    i,
                    *sizer,
                ),
        ensures
            final(self).goal == old(self).goal,
            final(self).coord_built_for == old(self).coord_built_for,
            same_but_place(old(self).nodes@, final(self).nodes@),
            laid_out(final(self).nodes@, *sizer),
    {
        let n = self.nodes.len();
        let cell = sizer.puzzle_cell();
        let ghost links = shape(self.nodes@);
        let ghost leaf = sizer.leaf_width();
        let ghost gap = sizer.cell();
        let ghost reach = halves@[0] as int;
        proof {
            assert(range_ok(links, 0));
            lemma_span(links, 0, 0, leaf, gap);
            assert(halves@[0] == half(links, 0, *sizer));
        }
        let mut root = self.nodes[0];
        root.center_x = 0;
        root.min_x = -halves[0];
        root.max_x = halves[0];
        self.nodes[0] = root;
        proof {
            assert(shape(self.nodes@) =~= links);
        }
        let mut i: usize = 0;
        while i < n
            invariant
                i <= n,
                n == self.nodes@.len(),
                n == links.len(),
                halves@.len() == n,
                self.goal == old(self).goal,
                self.coord_built_for == old(self).coord_built_for,
                same_but_place(old(self).nodes@, self.nodes@),
                shape(self.nodes@) == links,
                well_linked(links),
                fits(links, *sizer),
                leaf == sizer.leaf_width(),
                gap == sizer.cell(),
                cell == gap,
                reach == halves@[0],
                forall|j: int| 0 <= j < n ==> #[trigger] halves@[j] == half(links, j, *sizer),
                self.nodes@[0].center_x == 0,
                forall|j: int|
                    0 <= j < n && (i < n ==> j < links[i as int].first_child) ==> #[trigger] positioned(
                        self.nodes@,
                        j,
                        *sizer,
                        reach,
                    ),
                forall|c: int|
                    0 < c < n && (i < n ==> c < links[i as int].first_child) ==> #[trigger] seated_at(
                        self.nodes@,
                        c,
                        *sizer,
                    ),
                forall|p: int| 0 <= p < i ==> #[trigger] closed_by_last(self.nodes@, p),
            decreases n - i,
        {
            let first = self.nodes[i].first_child;
            let count = self.nodes[i].child_count;
            let start = self.nodes[i].min_x;
            let ghost end = self.nodes@[i as int].max_x as int;
            proof {
                lemma_front(links, i as int);
                assert(links[i as int].first_child == first);
                assert(links[i as int].child_count == count);
                assert(positioned(self.nodes@, i as int, *sizer, reach));
                lemma_span(links, i as int, count as int, leaf, gap);
            }
            let mut left: i64 = start as i64;
            let mut x: usize = 0;
            while x < count
                invariant
                    x <= count,
                    i < n,
                    n == self.nodes@.len(),
                    n == links.len(),
                    halves@.len() == n,
                    self.goal == old(self).goal,
                    self.coord_built_for == old(self).coord_built_for,
                    same_but_place(old(self).nodes@, self.nodes@),
                    shape(self.nodes@) == links,
                    well_linked(links),
                    fits(links, *sizer),
                    leaf == sizer.leaf_width(),
                    gap == sizer.cell(),
                    cell == gap,
                    reach == halves@[0],
                    first == links[i as int].first_child,
                    count == links[i as int].child_count,
                    i < first,
                    first + count <= n,
                    start == self.nodes@[i as int].min_x,
                    end == self.nodes@[i as int].max_x,
                    -reach <= start,
                    end <= reach,
                    end - start + 1 == span(links, i as int, leaf, gap),
                    left == start + spans(links, i as int, x as int, leaf, gap),
                    x > 0 ==> left == self.nodes@[first + x - 1].max_x + gap + 1,
                    forall|j: int| 0 <= j < n ==> #[trigger] halves@[j] == half(links, j, *sizer),
                    self.nodes@[0].center_x == 0,
                    forall|j: int|
                        0 <= j < first + x ==> #[trigger] positioned(
                            self.nodes@,
                            j,
                            *sizer,
                            reach,
                        ),
                    forall|c: int|
                        0 < c < first + x ==> #[trigger] seated_at(self.nodes@, c, *sizer),
                    forall|p: int| 0 <= p < i ==> #[trigger] closed_by_last(self.nodes@, p),
                decreases count - x,
            {
                let c = first + x;
                let h = halves[c];
                let ghost before = self.nodes@;
                proof {
                    lemma_span(links, c as int, 0, leaf, gap);
                    lemma_span(links, i as int, x + 1, leaf, gap);
                    lemma_spans_grow(links, i as int, x + 1, count as int, leaf, gap);
                    lemma_span(links, i as int, x as int, leaf, gap);
                    assert(halves@[c as int] == half(links, c as int, *sizer));
                    assert(in_range(links, i as int, c as int));
                    assert(links[c as int].parent == i);
                    assert(2 * h + 1 == span(links, c as int, leaf, gap));
                    assert(spans(links, i as int, x + 1, leaf, gap) == spans(
                        links,
                        i as int,
                        x as int,
                        leaf,
                        gap,
                    ) + span(links, c as int, leaf, gap) + gap);
                    assert(span(links, i as int, leaf, gap) == spans(
                        links,
                        i as int,
                        count as int,
                        leaf,
                        gap,
                    ) - gap);
                    assert(-reach <= left);
                    assert(left + 2 * h <= end);
                }
                let mut node = self.nodes[c];
                node.min_x = left as i32;
                node.center_x = (left + h as i64) as i32;
                node.max_x = (left + 2 * (h as i64)) as i32;
                self.nodes[c] = node;
                left = left + 2 * (h as i64) + 1 + cell as i64;
                proof {
                    let now = self.nodes@;
                    assert(shape(now) =~= links);
                    assert forall|j: int| 0 <= j < first + x + 1 implies #[trigger] positioned(
                        now,
                        j,
                        *sizer,
                        reach,
                    ) by {
                        if j < c {
                            assert(positioned(before, j, *sizer, reach));
                            assert(now[j] == before[j]);
                        } else {
                            assert(now[c as int] == node);
                        }
                    }
                    assert forall|k: int| 0 < k < first + x + 1 implies #[trigger] seated_at(
                        now,
                        k,
                        *sizer,
                    ) by {
                        if k < c {
                            assert(seated_at(before, k, *sizer));
                            assert(hangs_at(links, k));
                        }
                    }
                    assert forall|p: int| 0 <= p < i implies #[trigger] closed_by_last(now, p) by {
                        assert(closed_by_last(before, p));
                        assert(range_ok(links, p));
                        lemma_front(links, p);
                        lemma_first_child_grows(links, p, i as int);
                    }
                }
                x += 1;
            }
            proof {
                if i + 1 < n {
                    lemma_front(links, i + 1);
                }
                assert(closed_by_last(self.nodes@, i as int));
            }
            i += 1;
        }
        proof {
            let now = self.nodes@;
            assert forall|j: int| 0 <= j < now.len() implies #[trigger] sized(now, j, *sizer) by {
                assert(positioned(now, j, *sizer, reach));
            }
        }
    }

    /// Lays the tree out at the scale of `sizer`, unless it is laid out at
    /// that scale already. Returns whether the tree is laid out then: it is
    /// not, and stays as it was, where the scale is not a valid one or the
    /// extent of some node does not fit the coordinate type.
    pub fn build_coord(&mut self, sizer: &PuzzleSizer) -> (done: bool)
        requires
            old(self).wf(),
        ensures
            final(self).wf(),
            done == fits(shape(old(self).nodes@), *sizer),
            done ==> {
                &&& final(self).coord_built_for == Some(*sizer)
                &&& final(self).goal == old(self).goal
                &&& same_but_place(old(self).nodes@, final(self).nodes@)
                &&& laid_out(final(self).nodes@, *sizer)
                &&& old(self).coord_built_for == Some(*sizer) ==> final(self).nodes@ == old(
                    self,
                ).nodes@
            },
            !done ==> *final(self) == *old(self),
    {
        if !sizer.is_valid() {
            return false;
        }
        match self.coord_built_for {
            Some(built) => {
                if built.scale == sizer.scale {
                    return true;
                }
            },
            None => {},
        }
        match self.measure(sizer) {
            Some(halves) => {
                self.place(sizer, &halves);
                self.coord_built_for = Some(*sizer);
                proof {
                    assert(shape(self.nodes@) =~= shape(old(self).nodes@));
                }
                true
            },
            None => false,
        }
    }
}

/// The children of a later node stand behind those of an earlier node.
pub proof fn lemma_first_child_grows(links: Seq<Link>, a: int, b: int)
    requires
        well_linked(links),
        0 <= a <= b < links.len(),
    ensures
        links[a].first_child <= links[b].first_child,
        a < b ==> links[a].first_child + links[a].child_count <= links[b].first_child,
    decreases b - a,
{
    if a < b {
        lemma_first_child_grows(links, a, b - 1);
        assert(follows(links, b));
    }
}

/// In a layout the extent of a node with children reaches from the left end
/// of its first child to the right end of its last, with the node's centre
/// midway. The centre is midway between the centres of the first and the
/// last child too where those two are of one width; where they are not, it
/// is off that midpoint by half the difference of their half widths.
pub proof fn lemma_parent_centred(nodes: Seq<DrawTreeNode>, sizer: PuzzleSizer, p: int)
    requires
        well_linked(shape(nodes)),
        sizer.wf(),
        laid_out(nodes, sizer),
        0 <= p < nodes.len(),
        nodes[p].child_count > 0,
    ensures
        ({
            let first = nodes[p].first_child as int;
            let last = first + nodes[p].child_count - 1;
            let links = shape(nodes);
            &&& p < first <= last < nodes.len()
            &&& nodes[first].min_x == nodes[p].min_x
            &&& nodes[last].max_x == nodes[p].max_x
            &&& 2 * nodes[p].center_x == nodes[first].min_x + nodes[last].max_x
            &&& 2 * nodes[p].center_x == nodes[first].center_x + nodes[last].center_x + half(
                links,
                last,
                sizer,
            ) - half(links, first, sizer)
            &&& half(links, first, sizer) == half(links, last, sizer) ==> 2 * nodes[p].center_x
                == nodes[first].center_x + nodes[last].center_x
        }),
{
    let links = shape(nodes);
    let first = nodes[p].first_child as int;
    let last = first + nodes[p].child_count - 1;
    let leaf = sizer.leaf_width();
    let gap = sizer.cell();
    assert(range_ok(links, p));
    assert(in_range(links, p, first));
    assert(in_range(links, p, last));
    assert(links[first].parent == p);
    assert(seated_at(nodes, first, sizer));
    assert(closed_by_last(nodes, p));
    assert(sized(nodes, p, sizer));
    assert(sized(nodes, first, sizer));
    assert(sized(nodes, last, sizer));
    lemma_span(links, first, 0, leaf, gap);
    lemma_span(links, last, 0, leaf, gap);
}

/// In a layout the extents of two children of one node lie apart: the one
/// that stands later begins at least one gap behind the end of the other.
pub proof fn lemma_siblings_apart(nodes: Seq<DrawTreeNode>, sizer: PuzzleSizer, a: int, b: int)
    requires
        well_linked(shape(nodes)),
        sizer.wf(),
        laid_out(nodes, sizer),
        0 < a < b < nodes.len(),
        nodes[a].parent == nodes[b].parent,
    ensures
        nodes[a].min_x <= nodes[a].max_x,
        nodes[a].max_x + sizer.cell() + 1 <= nodes[b].min_x,
        b == a + 1 ==> nodes[a].max_x + sizer.cell() + 1 == nodes[b].min_x,
        sizer.cell() >= 1,
    decreases b - a,
{
    let links = shape(nodes);
    let p = nodes[a].parent as int;
    let leaf = sizer.leaf_width();
    let gap = sizer.cell();
    assert(hangs_at(links, a));
    assert(hangs_at(links, b));
    assert(links[a].parent == p);
    assert(links[b].parent == p);
    assert(sized(nodes, a, sizer));
    lemma_span(links, a, 0, leaf, gap);
    assert(seated_at(nodes, b, sizer));
    if b > a + 1 {
        assert(in_range(links, p, b - 1));
        assert(links[b - 1].parent == p);
        lemma_siblings_apart(nodes, sizer, a, b - 1);
        assert(sized(nodes, b - 1, sizer));
        lemma_span(links, b - 1, 0, leaf, gap);
    }
}

} // verus!
