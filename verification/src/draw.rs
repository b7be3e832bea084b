use crate::layout::{fits, laid_out, same_but_place};
use crate::paint::{DrawCommand, ElementPainter};
use crate::tree::{range_ok, shape, well_linked, DrawTree, DrawTreeNode, Link, Visibility};
use crate::view::{reached, viewed};
use vstd::prelude::*;

verus! {

/// The node as the first pass leaves it when it draws it: at its screen
/// column, in full view where the pass knows it to be, else in partial view.
pub open spec fn shown(node: DrawTreeNode, p: ElementPainter, fully: bool) -> DrawTreeNode {
    DrawTreeNode {
        draw_x: p.column(node.center_x as int) as i32,
        visibility: if fully {
            Visibility::Full
        } else {
            Visibility::Partial
        },
        ..node
    }
}

/// Whether the first pass, come to node `i`, draws it: it does unless the
/// node is out of sight and not known to be in view, or lies below the
/// bottom of the viewport.
pub open spec fn draws_node(
    links: Seq<Link>,
    nodes: Seq<DrawTreeNode>,
    p: ElementPainter,
    i: int,
    inherited: bool,
) -> bool {
    &&& 0 <= i < links.len()
    &&& links.len() == nodes.len()
    &&& range_ok(links, i)
    &&& inherited || nodes[i].visibility != Visibility::Hidden
    &&& p.row(nodes[i].depth as int) is Some
}

/// The nodes after the first pass has gone through the subtree of node `i`.
pub open spec fn after_phase_2(
    links: Seq<Link>,
    nodes: Seq<DrawTreeNode>,
    p: ElementPainter,
    i: int,
    inherited: bool,
) -> Seq<DrawTreeNode>
    decreases links.len() - i, 1int, 0int,
{
    if draws_node(links, nodes, p, i, inherited) {
        let fully = inherited || nodes[i].visibility == Visibility::Full;
        after_children_2(
            links,
            nodes.update(i, shown(nodes[i], p, fully)),
            p,
            i,
            links[i].child_count as int,
            fully,
        )
    } else {
        nodes
    }
}

/// The nodes after the first pass has gone through the subtrees of the
/// first `k` children of node `i`.
pub open spec fn after_children_2(
    links: Seq<Link>,
    nodes: Seq<DrawTreeNode>,
    p: ElementPainter,
    i: int,
    k: int,
    fully: bool,
) -> Seq<DrawTreeNode>
    decreases links.len() - i, 0int, k,
{
    if 0 <= i < links.len() && range_ok(links, i) && 0 < k <= links[i].child_count {
        after_phase_2(
            links,
            after_children_2(links, nodes, p, i, k - 1, fully),
            p,
            links[i].first_child + k - 1,
            fully,
        )
    } else {
        nodes
    }
}

/// The commands of the first pass for the subtree of node `i`: the board of
/// the node, then what its children take, from the first to the last.
pub open spec fn phase_2_commands(
    links: Seq<Link>,
    nodes: Seq<DrawTreeNode>,
    p: ElementPainter,
    i: int,
    inherited: bool,
) -> Seq<DrawCommand>
    decreases links.len() - i, 1int, 0int,
{
    if draws_node(links, nodes, p, i, inherited) {
        let fully = inherited || nodes[i].visibility == Visibility::Full;
        p.board(
            nodes[i].puzzle,
            p.column(nodes[i].center_x as int),
            p.row(nodes[i].depth as int)->0,
            nodes[i].on_path,
        ) + children_commands_2(
            links,
            nodes.update(i, shown(nodes[i], p, fully)),
            p,
            i,
            links[i].child_count as int,
            fully,
        )
    } else {
        Seq::empty()
    }
}

/// The commands of the first pass for the subtrees of the first `k`
/// children of node `i`.
pub open spec fn children_commands_2(
    links: Seq<Link>,
    nodes: Seq<DrawTreeNode>,
    p: ElementPainter,
    i: int,
    k: int,
    fully: bool,
) -> Seq<DrawCommand>
    decreases links.len() - i, 0int, k,
{
    if 0 <= i < links.len() && range_ok(links, i) && 0 < k <= links[i].child_count {
        children_commands_2(links, nodes, p, i, k - 1, fully) + phase_2_commands(
            links,
            after_children_2(links, nodes, p, i, k - 1, fully),
            p,
            links[i].first_child + k - 1,
            fully,
        )
    } else {
        Seq::empty()
    }
}

/// `after` differs from `before` in what the drawing passes write: the
/// screen column and the visibility.
pub open spec fn same_but_view(before: Seq<DrawTreeNode>, after: Seq<DrawTreeNode>) -> bool {
    &&& after.len() == before.len()
    &&& forall|i: int|
        0 <= i < before.len() ==> (#[trigger] after[i]) == (DrawTreeNode {
            draw_x: after[i].draw_x,
            visibility: after[i].visibility,
            ..before[i]
        })
}

/// Every node has a screen column that a node can have.
pub open spec fn columns_ok(nodes: Seq<DrawTreeNode>) -> bool {
    forall|i: int| 0 <= i < nodes.len() ==> ElementPainter::column_ok(
        (#[trigger] nodes[i]).draw_x as int,
    )
}

/// The place among the first `k` children, counted from 0, of the last one
/// that is marked; -1 where none is.
pub open spec fn marked_child(nodes: Seq<DrawTreeNode>, first: int, k: int) -> int
    decreases k,
{
    if k <= 0 {
        -1
    } else if nodes[first + k - 1].on_path {
        k - 1
    } else {
        marked_child(nodes, first, k - 1)
    }
}

/// Whether the second pass, come to node `i`, draws its lines: it does
/// unless the node is out of sight or lies below the bottom of the viewport.
pub open spec fn lines_node(
    links: Seq<Link>,
    nodes: Seq<DrawTreeNode>,
    p: ElementPainter,
    i: int,
) -> bool {
    &&& 0 <= i < links.len()
    &&& links.len() == nodes.len()
    &&& range_ok(links, i)
    &&& nodes[i].visibility != Visibility::Hidden
    &&& p.row(nodes[i].depth as int) is Some
}

/// The commands of the second pass for the subtree of node `i`: the line up
/// to the parent, unless the node is the root; then, where the node has
/// children, the line down, the bar from the first child to the last, what
/// the children take, and last, where the node and one of its children are
/// marked, the marked part of the bar.
pub open spec fn phase_3_commands(
    links: Seq<Link>,
    nodes: Seq<DrawTreeNode>,
    p: ElementPainter,
    i: int,
) -> Seq<DrawCommand>
    decreases links.len() - i, 1int, 0int,
{
    if lines_node(links, nodes, p, i) {
        let x = nodes[i].draw_x as int;
        let y = p.row(nodes[i].depth as int)->0;
        let up = if nodes[i].depth != 0 {
            seq![p.line_up(x, y, nodes[i].on_path)]
        } else {
            Seq::empty()
        };
        if links[i].child_count == 0 {
            up
        } else {
            let first = links[i].first_child as int;
            let count = links[i].child_count as int;
            let bar = p.line_across(
                nodes[first].draw_x as int,
                nodes[first + count - 1].draw_x as int,
                y,
            );
            let body = up.push(p.line_down(x, y, nodes[i].on_path)).push(bar)
                + children_commands_3(links, nodes, p, i, count);
            let m = marked_child(nodes, first, count);
            if nodes[i].on_path && m >= 0 {
                body.push(p.line_across_on_path(x, y, nodes[first + m].draw_x as int))
            } else {
                body
            }
        }
    } else {
        Seq::empty()
    }
}

/// The commands of the second pass for the subtrees of the first `k`
/// children of node `i`.
pub open spec fn children_commands_3(
    links: Seq<Link>,
    nodes: Seq<DrawTreeNode>,
    p: ElementPainter,
    i: int,
    k: int,
) -> Seq<DrawCommand>
    decreases links.len() - i, 0int, k,
{
    if 0 <= i < links.len() && range_ok(links, i) && 0 < k <= links[i].child_count {
        children_commands_3(links, nodes, p, i, k - 1) + phase_3_commands(
            links,
            nodes,
            p,
            links[i].first_child + k - 1,
        )
    } else {
        Seq::empty()
    }
}

/// The nodes after the visibility update for the viewport and the offset of `p`.
pub open spec fn after_view(nodes: Seq<DrawTreeNode>, p: ElementPainter) -> Seq<DrawTreeNode> {
    Seq::new(
        nodes.len(),
        |i: int|
            if reached(nodes, p.offset.0 as int, p.bound.left as int, p.bound.right as int, i) {
                viewed(nodes[i], p.offset.0 as int, p.bound.left as int, p.bound.right as int)
            } else {
                nodes[i]
            },
    )
}

/// `after` and `commands` are what drawing the tree `before` with `p` gives:
/// the tree is laid out at the scale of `p`, the visibility of its nodes is
/// brought up to date, and the two passes are made from the root.
pub open spec fn drawn(
    before: Seq<DrawTreeNode>,
    p: ElementPainter,
    after: Seq<DrawTreeNode>,
    commands: Seq<DrawCommand>,
) -> bool {
    exists|placed: Seq<DrawTreeNode>|
        {
            let links = shape(before);
            let seen = after_view(placed, p);
            &&& #[trigger] same_but_place(before, placed)
            &&& laid_out(placed, p.sizer)
            &&& after == after_phase_2(links, seen, p, 0, false)
            &&& commands == phase_2_commands(links, seen, p, 0, false) + phase_3_commands(
                links,
                after,
                p,
                0,
            )
        }
}

impl DrawTree {
    /// The first drawing pass over the subtree of node `i`: draws the board
    /// of every node that is in view, from the top down. Below a node in
    /// full view every node is drawn, and taken to be in full view itself.
    pub fn draw_phase_2(
        &mut self,
        i: usize,
        painter: &ElementPainter,
        fully_visible: bool,
        out: &mut Vec<DrawCommand>,
    )
        requires
            well_linked(shape(old(self).nodes@)),
            i < old(self).nodes@.len(),
            painter.wf(),
            columns_ok(old(self).nodes@),
        ensures
            final(self).goal == old(self).goal,
            final(self).coord_built_for == old(self).coord_built_for,
            same_but_view(old(self).nodes@, final(self).nodes@),
            columns_ok(final(self).nodes@),
            final(self).nodes@ == after_phase_2(
                shape(old(self).nodes@),
                old(self).nodes@,
                *painter,
                i as int,
                fully_visible,
            ),
            final(out)@ == old(out)@ + phase_2_commands(
                shape(old(self).nodes@),
                old(self).nodes@,
                *painter,
                i as int,
                fully_visible,
            ),
        decreases old(self).nodes@.len() - i,
    {
        let ghost links = shape(self.nodes@);
        let ghost before = self.nodes@;
        let ghost out0 = out@;
        proof {
            assert(range_ok(links, i as int));
        }
        if !fully_visible && self.nodes[i].visibility == Visibility::Hidden {
            proof {
                assert(out@ =~= out0 + Seq::<DrawCommand>::empty());
            }
            return ;
        }
        let fully = fully_visible || self.nodes[i].visibility == Visibility::Full;
        let depth = self.nodes[i].depth;
        match painter.get_draw_y(depth) {
            None => {
                proof {
                    assert(out@ =~= out0 + Seq::<DrawCommand>::empty());
                }
            },
            Some(y) => {
                let x = painter.get_draw_x(self.nodes[i].center_x);
                painter.draw_small_puzzle(out, &self.nodes[i].puzzle, x, y, self.nodes[i].on_path);
                let mut node = self.nodes[i];
                node.draw_x = x;
                node.visibility = if fully {
                    Visibility::Full
                } else {
                    Visibility::Partial
                };
                self.nodes[i] = node;
                let ghost own = painter.board(before[i as int].puzzle, x as int, y as int, before[i as int].on_path);
                let ghost start = before.update(i as int, shown(before[i as int], *painter, fully));
                let first = self.nodes[i].first_child;
                let count = self.nodes[i].child_count;
                let n = self.nodes.len();
                proof {
                    assert(self.nodes@ =~= start);
                    assert(shape(self.nodes@) =~= links);
                }
                let mut k: usize = 0;
                while k < count
                    invariant
                        k <= count,
                        i < first,
                        first + count <= n,
                        n == self.nodes@.len(),
                        before == old(self).nodes@,
                        first == links[i as int].first_child,
                        count == links[i as int].child_count,
                        links == shape(before),
                        links.len() == before.len(),
                        shape(self.nodes@) == links,
                        well_linked(links),
                        range_ok(links, i as int),
                        painter.wf(),
                        self.goal == old(self).goal,
                        self.coord_built_for == old(self).coord_built_for,
                        same_but_view(before, self.nodes@),
                        columns_ok(self.nodes@),
                        self.nodes@ == after_children_2(
                            links,
                            start,
                            *painter,
                            i as int,
                            k as int,
                            fully,
                        ),
                        out@ == out0 + own + children_commands_2(
                            links,
                            start,
                            *painter,
                            i as int,
                            k as int,
                            fully,
                        ),
                    decreases count - k,
                {
                    let ghost mid = out@;
                    let ghost now = self.nodes@;
                    self.draw_phase_2(first + k, painter, fully, out);
                    proof {
                        assert(shape(self.nodes@) =~= links);
                        assert(out@ =~= out0 + own + children_commands_2(
                            links,
                            start,
                            *painter,
                            i as int,
                            k + 1,
                            fully,
                        ));
                        assert forall|j: int| 0 <= j < before.len() implies (
                        #[trigger] self.nodes@[j]) == (DrawTreeNode {
                            draw_x: self.nodes@[j].draw_x,
                            visibility: self.nodes@[j].visibility,
                            ..before[j]
                        }) by {
                            assert(now[j] == (DrawTreeNode {
                                draw_x: now[j].draw_x,
                                visibility: now[j].visibility,
                                ..before[j]
                            }));
                        }
                    }
                    k += 1;
                }
                proof {
                    assert(out@ =~= out0 + (own + children_commands_2(
                        links,
                        start,
                        *painter,
                        i as int,
                        count as int,
                        fully,
                    )));
                }
            },
        }
    }

    /// The second drawing pass over the subtree of node `i`: draws the lines
    /// between the nodes that are in view and their parents and children.
    pub fn draw_phase_3(&self, i: usize, painter: &ElementPainter, out: &mut Vec<DrawCommand>)
        requires
            well_linked(shape(self.nodes@)),
            i < self.nodes@.len(),
            painter.wf(),
            columns_ok(self.nodes@),
        ensures
            final(out)@ == old(out)@ + phase_3_commands(
                shape(self.nodes@),
                self.nodes@,
                *painter,
                i as int,
            ),
        decreases self.nodes@.len() - i,
    {
        let ghost links = shape(self.nodes@);
        let ghost nodes = self.nodes@;
        let ghost out0 = out@;
        proof {
            assert(range_ok(links, i as int));
        }
        if self.nodes[i].visibility == Visibility::Hidden {
            proof {
                assert(out@ =~= out0 + Seq::<DrawCommand>::empty());
            }
            return ;
        }
        let on_path = self.nodes[i].on_path;
        match painter.get_draw_y(self.nodes[i].depth) {
            None => {
                proof {
                    assert(out@ =~= out0 + Seq::<DrawCommand>::empty());
                }
            },
            Some(y) => {
                let x = self.nodes[i].draw_x;
                if self.nodes[i].depth != 0 {
                    out.push(painter.draw_line_up(x, y, on_path));
                }
                let ghost up = if nodes[i as int].depth != 0 {
                    seq![painter.line_up(x as int, y as int, on_path)]
                } else {
                    Seq::empty()
                };
                let first = self.nodes[i].first_child;
                let count = self.nodes[i].child_count;
                let n = self.nodes.len();
                if count == 0 {
                    proof {
                        assert(out@ =~= out0 + up);
                    }
                } else {
                    out.push(painter.draw_line_down(x, y, on_path));
                    let left_x = self.nodes[first].draw_x;
                    let right_x = self.nodes[first + count - 1].draw_x;
                    out.push(painter.draw_line_across(left_x, right_x, y));
                    let ghost head = up.push(painter.line_down(x as int, y as int, on_path)).push(
                        painter.line_across(left_x as int, right_x as int, y as int),
                    );
                    proof {
                        assert(out@ =~= out0 + head);
                    }
                    let mut child_on_path_id: Option<usize> = None;
                    let mut k: usize = 0;
                    while k < count
                        invariant
                            k <= count,
                            i < first,
                            first + count <= n,
                            n == self.nodes@.len(),
                            nodes == self.nodes@,
                            links == shape(nodes),
                            first == links[i as int].first_child,
                            count == links[i as int].child_count,
                            well_linked(links),
                            range_ok(links, i as int),
                            painter.wf(),
                            columns_ok(nodes),
                            match child_on_path_id {
                                Some(id) => id < k && marked_child(nodes, first as int, k as int)
                                    == id,
                                None => marked_child(nodes, first as int, k as int) == -1,
                            },
                            out@ == out0 + head + children_commands_3(
                                links,
                                nodes,
                                *painter,
                                i as int,
                                k as int,
                            ),
                        decreases count - k,
                    {
                        self.draw_phase_3(first + k, painter, out);
                        if self.nodes[first + k].on_path {
                            child_on_path_id = Some(k);
                        }
                        proof {
                            assert(out@ =~= out0 + head + children_commands_3(
                                links,
                                nodes,
                                *painter,
                                i as int,
                                k + 1,
                            ));
                        }
                        k += 1;
                    }
                    let ghost body = head + children_commands_3(
                        links,
                        nodes,
                        *painter,
                        i as int,
                        count as int,
                    );
                    match child_on_path_id {
                        Some(id) => {
                            if on_path {
                                let other_end = self.nodes[first + id].draw_x;
                                out.push(painter.draw_line_across_on_path(x, y, other_end));
                                proof {
                                    assert(out@ =~= out0 + body.push(
                                        painter.line_across_on_path(
                                            x as int,
                                            y as int,
                                            other_end as int,
                                        ),
                                    ));
                                }
                            } else {
                                proof {
                                    assert(out@ =~= out0 + body);
                                }
                            }
                        },
                        None => {
                            proof {
                                assert(out@ =~= out0 + body);
                            }
                        },
                    }
                }
            },
        }
    }

    /// Draws the tree: lays it out at the painter's scale, brings the
    /// visibility of its nodes up to date, and makes the two drawing passes.
    /// Returns the commands in the order in which they are to be carried
    /// out. Where the tree cannot be laid out at that scale, nothing is
    /// drawn and the tree stays as it was.
    pub fn draw(&mut self, painter: &ElementPainter) -> (commands: Vec<DrawCommand>)
        requires
            old(self).wf(),
            painter.wf(),
            columns_ok(old(self).nodes@),
        ensures
            final(self).wf(),
            columns_ok(final(self).nodes@),
            final(self).goal == old(self).goal,
            shape(final(self).nodes@) == shape(old(self).nodes@),
            if fits(shape(old(self).nodes@), painter.sizer) {
                &&& final(self).coord_built_for == Some(painter.sizer)
                &&& drawn(old(self).nodes@, *painter, final(self).nodes@, commands@)
            } else {
                &&& *final(self) == *old(self)
                &&& commands@ == Seq::<DrawCommand>::empty()
            },
    {
        let mut out: Vec<DrawCommand> = Vec::new();
        if !self.build_coord(&painter.sizer) {
            return out;
        }
        let ghost links = shape(old(self).nodes@);
        let ghost placed = self.nodes@;
        proof {
            assert(shape(placed) =~= links);
        }
        self.update_visibility(&painter.bound, painter.offset);
        let ghost seen = self.nodes@;
        proof {
            assert(seen =~= after_view(placed, *painter));
            assert(shape(seen) =~= links);
            assert forall|j: int| 0 <= j < seen.len() implies ElementPainter::column_ok(
                (#[trigger] seen[j]).draw_x as int,
            ) by {
                assert(ElementPainter::column_ok(placed[j].draw_x as int)) by {
                    assert(placed[j].draw_x == old(self).nodes@[j].draw_x);
                }
            }
        }
        self.draw_phase_2(0, painter, false, &mut out);
        proof {
            assert(shape(self.nodes@) =~= links);
            assert(out@ =~= phase_2_commands(links, seen, *painter, 0, false));
        }
        self.draw_phase_3(0, painter, &mut out);
        proof {
            let now = self.nodes@;
            assert(same_but_place(old(self).nodes@, placed));
            assert forall|j: int| 0 <= j < placed.len() implies {
                &&& (#[trigger] now[j]).min_x == placed[j].min_x
                &&& now[j].max_x == placed[j].max_x
                &&& now[j].center_x == placed[j].center_x
            } by {
                assert(seen[j].min_x == placed[j].min_x);
            }
            assert(well_linked(shape(placed)));
            lemma_layout_kept(placed, now, painter.sizer);
        }
        out
    }
}

/// A layout stays one when nothing of the placement or the links changes.
pub proof fn lemma_layout_kept(
    before: Seq<DrawTreeNode>,
    after: Seq<DrawTreeNode>,
    sizer: crate::sizer::PuzzleSizer,
)
    requires
        well_linked(shape(before)),
        laid_out(before, sizer),
        after.len() == before.len(),
        shape(after) == shape(before),
        forall|j: int|
            0 <= j < before.len() ==> {
                &&& (#[trigger] after[j]).min_x == before[j].min_x
                &&& after[j].max_x == before[j].max_x
                &&& after[j].center_x == before[j].center_x
            },
    ensures
        laid_out(after, sizer),
{
    let links = shape(before);
    assert forall|j: int| 0 <= j < before.len() implies (#[trigger] after[j]).link()
        == before[j].link() by {
        assert(shape(after)[j] == after[j].link());
        assert(links[j] == before[j].link());
    }
    assert forall|i: int| 0 <= i < after.len() implies #[trigger] crate::layout::sized(
        after,
        i,
        sizer,
    ) by {
        assert(crate::layout::sized(before, i, sizer));
    }
    assert forall|c: int| 0 < c < after.len() implies #[trigger] crate::layout::seated_at(
        after,
        c,
        sizer,
    ) by {
        assert(crate::layout::seated_at(before, c, sizer));
        assert(crate::tree::hangs_at(links, c));
        let p = before[c].parent as int;
        assert(after[c].link() == before[c].link());
        assert(after[p].link() == before[p].link());
        assert(after[c - 1].max_x == before[c - 1].max_x);
    }
    assert forall|p: int| 0 <= p < after.len() implies #[trigger] crate::layout::closed_by_last(
        after,
        p,
    ) by {
        assert(crate::layout::closed_by_last(before, p));
        assert(range_ok(links, p));
        assert(after[p].link() == before[p].link());
        if before[p].child_count > 0 {
            let last = before[p].first_child + before[p].child_count - 1;
            assert(after[last].max_x == before[last].max_x);
        }
    }
}

} // verus!
