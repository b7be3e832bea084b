use crate::sizer::COORD_LIMIT;
use crate::tree::{range_ok, shape, well_linked, DrawTree, DrawTreeNode, Visibility};
use vstd::prelude::*;

verus! {

/// A rectangle of the screen, edges included.
#[derive(Clone, Copy, PartialEq, Eq, Structural, Debug)]
pub struct IntRectBound {
    pub left: i32,
    pub top: i32,
    pub right: i32,
    pub bottom: i32,
}

impl IntRectBound {
    /// The edges lie within `COORD_LIMIT`.
    pub open spec fn wf(self) -> bool {
        &&& -COORD_LIMIT <= self.left <= COORD_LIMIT
        &&& -COORD_LIMIT <= self.right <= COORD_LIMIT
        &&& -COORD_LIMIT <= self.top <= COORD_LIMIT
        &&& -COORD_LIMIT <= self.bottom <= COORD_LIMIT
    }

    /// Whether the edges lie within `COORD_LIMIT`.
    pub fn is_valid(&self) -> (b: bool)
        ensures
            b == self.wf(),
    {
        -COORD_LIMIT <= self.left && self.left <= COORD_LIMIT && -COORD_LIMIT <= self.right
            && self.right <= COORD_LIMIT && -COORD_LIMIT <= self.top && self.top <= COORD_LIMIT
            && -COORD_LIMIT <= self.bottom && self.bottom <= COORD_LIMIT
    }
}

/// How far a node that is out of sight is drawn beyond the edge of the viewport.
pub const PIN_DISTANCE: i32 = 20;

/// How the window from `min_x + offset` to `max_x + offset` lies to the
/// viewport from `left` to `right`.
pub open spec fn classify(min_x: int, max_x: int, offset: int, left: int, right: int) -> Visibility {
    let lo = offset + min_x;
    let hi = offset + max_x;
    if left <= lo && hi <= right {
        Visibility::Full
    } else if left <= hi && lo <= right {
        Visibility::Partial
    } else {
        Visibility::Hidden
    }
}

/// Where a node out of sight is drawn: beyond the right edge of the viewport
/// where its window begins behind that edge, else beyond the left edge.
pub open spec fn pinned(min_x: int, offset: int, left: int, right: int) -> int {
    if offset + min_x > right {
        right + PIN_DISTANCE
    } else {
        left - PIN_DISTANCE
    }
}

/// A window is in full view exactly if every point of it lies in the
/// viewport, and out of sight exactly if no point of it does.
pub proof fn lemma_classify(min_x: int, max_x: int, offset: int, left: int, right: int)
    requires
        min_x <= max_x,
        left <= right,
    ensures
        ({
            let window = Set::new(|x: int| min_x + offset <= x <= max_x + offset);
            let viewport = Set::new(|x: int| left <= x <= right);
            let v = classify(min_x, max_x, offset, left, right);
            &&& v == Visibility::Full <==> window.subset_of(viewport)
            &&& v == Visibility::Hidden <==> window.disjoint(viewport)
            &&& v == Visibility::Partial <==> !window.subset_of(viewport) && !window.disjoint(
                viewport,
            )
        }),
{
    let lo = min_x + offset;
    let hi = max_x + offset;
    let window = Set::new(|x: int| lo <= x <= hi);
    let viewport = Set::new(|x: int| left <= x <= right);
    let v = classify(min_x, max_x, offset, left, right);
    if window.subset_of(viewport) {
        assert(window.contains(lo));
        assert(window.contains(hi));
        assert(viewport.contains(lo));
        assert(viewport.contains(hi));
    }
    if v != Visibility::Hidden {
        let x = if lo < left {
            left
        } else {
            lo
        };
        assert(window.contains(x) && viewport.contains(x));
    }
    if window.disjoint(viewport) && v != Visibility::Hidden {
    }
    if v == Visibility::Hidden {
        assert forall|x: int| !(window.contains(x) && viewport.contains(x)) by {}
    }
}

/// Whether the update reaches node `i`: it reaches the root, and the
/// children of every node that it reaches and finds in partial view.
pub open spec fn reached(nodes: Seq<DrawTreeNode>, offset: int, left: int, right: int, i: int) -> bool
    decreases i,
{
    if i <= 0 {
        true
    } else {
        let p = nodes[i].parent as int;
        p < i && reached(nodes, offset, left, right, p) && classify(
            nodes[p].min_x as int,
            nodes[p].max_x as int,
            offset,
            left,
            right,
        ) == Visibility::Partial
    }
}

/// The node as the update leaves it where it reaches it.
pub open spec fn viewed(node: DrawTreeNode, offset: int, left: int, right: int) -> DrawTreeNode {
    let v = classify(node.min_x as int, node.max_x as int, offset, left, right);
    DrawTreeNode {
        visibility: v,
        draw_x: if v == Visibility::Hidden {
            pinned(node.min_x as int, offset, left, right) as i32
        } else {
            node.draw_x
        },
        ..node
    }
}

impl DrawTree {
    /// Says of every node how much of it is in view, from the root down:
    /// below a node in full view or out of sight nothing is looked at. A
    /// node out of sight is pinned beyond the nearer edge of the viewport.
    pub fn update_visibility(&mut self, bound: &IntRectBound, offset: (i32, i32))
        requires
            well_linked(shape(old(self).nodes@)),
            bound.wf(),
        ensures
            final(self).goal == old(self).goal,
            final(self).coord_built_for == old(self).coord_built_for,
            final(self).nodes@.len() == old(self).nodes@.len(),
            forall|i: int|
                0 <= i < old(self).nodes@.len() ==> #[trigger] final(self).nodes@[i] == if reached(
                    old(self).nodes@,
                    offset.0 as int,
                    bound.left as int,
                    bound.right as int,
                    i,
                ) {
                    viewed(
                        old(self).nodes@[i],
                        offset.0 as int,
                        bound.left as int,
                        bound.right as int,
                    )
                } else {
                    old(self).nodes@[i]
                },
    {
        let n = self.nodes.len();
        let ghost before = self.nodes@;
        let ghost links = shape(before);
        let ghost off = offset.0 as int;
        let ghost l = bound.left as int;
        let ghost r = bound.right as int;
        let mut open: Vec<bool> = Vec::new();
        open.push(true);
        while open.len() < n
            invariant
                1 <= open@.len() <= n || n == 0,
                open@[0],
                forall|j: int| 1 <= j < open@.len() ==> !#[trigger] open@[j],
            decreases n - open@.len(),
        {
            open.push(false);
        }
        let mut i: usize = 0;
        while i < n
            invariant
                i <= n,
                n == before.len(),
                self.nodes@.len() == n,
                open@.len() == n,
                self.goal == old(self).goal,
                self.coord_built_for == old(self).coord_built_for,
                before == old(self).nodes@,
                links == shape(before),
                well_linked(links),
                off == offset.0,
                l == bound.left,
                r == bound.right,
                bound.wf(),
                forall|j: int|
                    0 <= j < i ==> #[trigger] self.nodes@[j] == if reached(before, off, l, r, j) {
                        viewed(before[j], off, l, r)
                    } else {
                        before[j]
                    },
                forall|j: int| i <= j < n ==> #[trigger] self.nodes@[j] == before[j],
                forall|j: int|
                    0 <= j < n && (j == 0 || before[j].parent < i) ==> (#[trigger] open@[j]
                        <==> reached(before, off, l, r, j)),
                forall|j: int|
                    0 <= j < n && !(j == 0 || before[j].parent < i) ==> !#[trigger] open@[j],
            decreases n - i,
        {
            proof {
                assert(range_ok(links, i as int));
                if i > 0 {
                    assert(crate::tree::hangs_at(links, i as int));
                }
            }
            if open[i] {
                let mut node = self.nodes[i];
                let lo: i64 = offset.0 as i64 + node.min_x as i64;
                let hi: i64 = offset.0 as i64 + node.max_x as i64;
                if bound.left as i64 <= lo && hi <= bound.right as i64 {
                    node.visibility = Visibility::Full;
                } else if bound.left as i64 <= hi && lo <= bound.right as i64 {
                    node.visibility = Visibility::Partial;
                    let first = node.first_child;
                    let count = node.child_count;
                    let ghost open0 = open@;
                    let mut x: usize = 0;
                    while x < count
                        invariant
                            x <= count,
                            first + count <= n,
                            i < first,
                            open@.len() == n,
                            open0.len() == n,
                            forall|j: int|
                                0 <= j < n && !(first <= j < first + x) ==> #[trigger] open@[j]
                                    == open0[j],
                            forall|j: int| first <= j < first + x ==> #[trigger] open@[j],
                        decreases count - x,
                    {
                        open[first + x] = true;
                        x += 1;
                    }
                } else {
                    node.visibility = Visibility::Hidden;
                    if lo > bound.right as i64 {
                        node.draw_x = bound.right + PIN_DISTANCE;
                    } else {
                        node.draw_x = bound.left - PIN_DISTANCE;
                    }
                }
                self.nodes[i] = node;
            }
            proof {
                assert(self.nodes@[i as int] == if reached(before, off, l, r, i as int) {
                    viewed(before[i as int], off, l, r)
                } else {
                    before[i as int]
                });
                assert forall|j: int|
                    0 <= j < n && (j == 0 || before[j].parent < i + 1) implies (
                #[trigger] open@[j] <==> reached(before, off, l, r, j)) by {
                    if j > 0 {
                        assert(crate::tree::hangs_at(links, j));
                        assert(links[j].parent == before[j].parent);
                        if crate::tree::in_range(links, i as int, j) {
                            assert(links[j].parent == i);
                        }
                    }
                }
                assert forall|j: int|
                    0 <= j < n && !(j == 0 || before[j].parent < i + 1) implies !#[trigger] open@[j] by {
                    if crate::tree::in_range(links, i as int, j) {
                        assert(links[j].parent == i);
                    }
                }
            }
            i += 1;
        }
    }
}

} // verus!
