use vstd::prelude::*;

verus! {

/// The scale at which the small boards of the tree are drawn.
#[derive(Clone, Copy, PartialEq, Eq, Structural, Debug)]
pub struct PuzzleSizer {
    pub scale: i32,
}

/// The largest scale that is taken: positions a few cells off a coordinate
/// within `COORD_LIMIT` then fit the coordinate type.
pub const MAX_SCALE: i32 = 16_777_216;

/// The largest magnitude of a viewport coordinate or a pan offset.
pub const COORD_LIMIT: i32 = 1_000_000_000;

impl PuzzleSizer {
    /// The scale is at least 1 and no larger than `MAX_SCALE`.
    pub open spec fn wf(self) -> bool {
        1 <= self.scale <= MAX_SCALE
    }

    /// The side of one cell of a small board.
    pub open spec fn cell(self) -> int {
        2 * self.scale - 1
    }

    /// The distance from the centre of a small board to its edge.
    pub open spec fn center_offset(self) -> int {
        self.cell() * 3 / 2
    }

    /// The width of the extent of a node without children.
    pub open spec fn leaf_width(self) -> int {
        2 * self.center_offset() + 1
    }

    /// Whether the scale is one at which a tree can be laid out.
    pub fn is_valid(&self) -> (b: bool)
        ensures
            b == self.wf(),
    {
        1 <= self.scale && self.scale <= MAX_SCALE
    }

    /// The side of one cell of a small board.
    pub fn puzzle_cell(&self) -> (c: i32)
        requires
            self.wf(),
        ensures
            c == self.cell(),
            1 <= c,
            c % 2 == 1,
    {
        2 * self.scale - 1
    }

    /// The distance from the centre of a small board to its edge.
    pub fn puzzle_center_offset(&self) -> (w: i32)
        requires
            self.wf(),
        ensures
            w == self.center_offset(),
            1 <= w,
            2 * w + 1 <= i32::MAX,
            w < 3 * MAX_SCALE,
    {
        self.puzzle_cell() * 3 / 2
    }
}

} // verus!
