use crate::puzzle::Puzzle;
use crate::sizer::{PuzzleSizer, COORD_LIMIT, MAX_SCALE};
use crate::view::{IntRectBound, PIN_DISTANCE};
use vstd::prelude::*;

verus! {

/// The colours that the tree is drawn in.
#[derive(Clone, Copy, PartialEq, Eq, Structural, Debug)]
pub enum Color {
    DarkRed,
    DarkBlue,
    DarkGreen,
    DarkCyan,
    DarkOrange,
    DarkPurple,
    DarkBrown,
    DarkGoldenrod,
    Black,
    Red,
}

/// One thing to draw.
#[derive(Clone, Copy, PartialEq, Eq, Structural, Debug)]
pub enum DrawCommand {
    /// A filled rectangle.
    Rectangle { x: i32, y: i32, width: i32, height: i32, color: Color },
    /// The outline of a rectangle.
    RectangleLines { x: i32, y: i32, width: i32, height: i32, color: Color },
}

/// The colour of the tile with the number `value`.
pub open spec fn tile_color(value: u8) -> Color {
    if value == 1 {
        Color::DarkRed
    } else if value == 2 {
        Color::DarkBlue
    } else if value == 3 {
        Color::DarkGreen
    } else if value == 4 {
        Color::DarkCyan
    } else if value == 5 {
        Color::DarkOrange
    } else if value == 6 {
        Color::DarkPurple
    } else if value == 7 {
        Color::DarkBrown
    } else if value == 8 {
        Color::DarkGoldenrod
    } else {
        Color::Black
    }
}

/// The colour of the tile with the number `value`; black for any other value.
pub fn map_color(value: u8) -> (c: Color)
    ensures
        c == tile_color(value),
{
    match value {
        1 => Color::DarkRed,
        2 => Color::DarkBlue,
        3 => Color::DarkGreen,
        4 => Color::DarkCyan,
        5 => Color::DarkOrange,
        6 => Color::DarkPurple,
        7 => Color::DarkBrown,
        8 => Color::DarkGoldenrod,
        _ => Color::Black,
    }
}

/// Where a small board is drawn: something that knows the board's top left
/// corner and the side of its cells.
pub trait PuzzleCoord {
    /// The position and the cell size are ones that a board can be drawn at.
    spec fn drawable(&self) -> bool;

    spec fn top_left(&self) -> (int, int);

    spec fn cell_size(&self) -> int;

    fn get_top_left(&self) -> (r: (i32, i32))
        requires
            self.drawable(),
        ensures
            r.0 == self.top_left().0,
            r.1 == self.top_left().1,
            -2 * COORD_LIMIT <= r.0 <= 2 * COORD_LIMIT,
            -2 * COORD_LIMIT <= r.1 <= 2 * COORD_LIMIT,
    ;

    fn get_cell_size(&self) -> (c: i32)
        requires
            self.drawable(),
        ensures
            c == self.cell_size(),
            1 <= c <= 2 * MAX_SCALE,
    ;
}

/// A small board given by its centre.
#[derive(Clone, Copy, Debug)]
pub struct SmallPuzzleCenter {
    pub x: i32,
    pub y: i32,
    pub cell_size: i32,
}

impl PuzzleCoord for SmallPuzzleCenter {
    open spec fn drawable(&self) -> bool {
        &&& -COORD_LIMIT - PIN_DISTANCE <= self.x <= COORD_LIMIT + PIN_DISTANCE
        &&& -COORD_LIMIT - PIN_DISTANCE <= self.y <= COORD_LIMIT + PIN_DISTANCE
        &&& 1 <= self.cell_size <= 2 * MAX_SCALE
    }

    open spec fn top_left(&self) -> (int, int) {
        (self.x - self.cell_size * 3 / 2, self.y - self.cell_size * 3 / 2)
    }

    open spec fn cell_size(&self) -> int {
        self.cell_size as int
    }

    fn get_top_left(&self) -> (r: (i32, i32)) {
        (self.x - self.cell_size * 3 / 2, self.y - self.cell_size * 3 / 2)
    }

    fn get_cell_size(&self) -> (c: i32) {
        self.cell_size
    }
}

/// The commands for the tiles in the first `k` cells of a board whose top
/// left corner is at (`x`, `y`): one square for every cell that holds a tile.
pub open spec fn tile_commands(puzzle: Puzzle, x: int, y: int, cell: int, k: int) -> Seq<DrawCommand>
    decreases k,
{
    if k <= 0 {
        Seq::empty()
    } else {
        let rest = tile_commands(puzzle, x, y, cell, k - 1);
        let value = puzzle.cell(k - 1);
        if value != 0 {
            rest.push(
                DrawCommand::Rectangle {
                    x: (x + ((k - 1) % 3) * cell) as i32,
                    y: (y + ((k - 1) / 3) * cell) as i32,
                    width: cell as i32,
                    height: cell as i32,
                    color: tile_color(value),
                },
            )
        } else {
            rest
        }
    }
}

/// The frame round a small board: red and two points off the board where
/// the board lies on the marked path, else black and one point off.
pub open spec fn frame_command(x: int, y: int, cell: int, with_border: bool) -> DrawCommand {
    if with_border {
        DrawCommand::RectangleLines {
            x: (x - 2) as i32,
            y: (y - 2) as i32,
            width: (4 + cell * 3) as i32,
            height: (4 + cell * 3) as i32,
            color: Color::Red,
        }
    } else {
        DrawCommand::RectangleLines {
            x: (x - 1) as i32,
            y: (y - 1) as i32,
            width: (2 + cell * 3) as i32,
            height: (2 + cell * 3) as i32,
            color: Color::Black,
        }
    }
}

/// The commands that draw a small board whose top left corner is at
/// (`x`, `y`): its tiles row by row, then its frame.
pub open spec fn small_puzzle_commands(
    puzzle: Puzzle,
    x: int,
    y: int,
    cell: int,
    with_border: bool,
) -> Seq<DrawCommand> {
    tile_commands(puzzle, x, y, cell, 9).push(frame_command(x, y, cell, with_border))
}

/// Adds to `out` the commands that draw the small board `puzzle` at `coord`.
pub fn draw_small_puzzle<C: PuzzleCoord>(
    out: &mut Vec<DrawCommand>,
    puzzle: &Puzzle,
    coord: C,
    with_border: bool,
)
    requires
        coord.drawable(),
    ensures
        final(out)@ == old(out)@ + small_puzzle_commands(
            *puzzle,
            coord.top_left().0,
            coord.top_left().1,
            coord.cell_size(),
            with_border,
        ),
{
    let (x, y) = coord.get_top_left();
    let cell_size = coord.get_cell_size();
    let ghost start = out@;
    for i in 0..3usize
        invariant
            1 <= cell_size <= 2 * MAX_SCALE,
            -2 * COORD_LIMIT <= x <= 2 * COORD_LIMIT,
            -2 * COORD_LIMIT <= y <= 2 * COORD_LIMIT,
            out@ == start + tile_commands(*puzzle, x as int, y as int, cell_size as int, 3 * i),
    {
        for j in 0..3usize
            invariant
                i < 3,
                1 <= cell_size <= 2 * MAX_SCALE,
                -2 * COORD_LIMIT <= x <= 2 * COORD_LIMIT,
                -2 * COORD_LIMIT <= y <= 2 * COORD_LIMIT,
                out@ == start + tile_commands(
                    *puzzle,
                    x as int,
                    y as int,
                    cell_size as int,
                    3 * i + j,
                ),
        {
            let value = puzzle.get_value(i, j);
            assert(0 <= j * cell_size <= 2 * cell_size && 0 <= i * cell_size <= 2 * cell_size)
                by (nonlinear_arith)
                requires
                    0 <= i < 3,
                    0 <= j < 3,
                    1 <= cell_size,
            ;
            if value != 0 {
                out.push(
                    DrawCommand::Rectangle {
                        x: x + j as i32 * cell_size,
                        y: y + i as i32 * cell_size,
                        width: cell_size,
                        height: cell_size,
                        color: map_color(value),
                    },
                );
            }
            proof {
                let k = 3 * i + j + 1;
                assert((k - 1) % 3 == j && (k - 1) / 3 == i);
                assert(out@ =~= start + tile_commands(
                    *puzzle,
                    x as int,
                    y as int,
                    cell_size as int,
                    k as int,
                ));
            }
        }
    }
    if with_border {
        out.push(
            DrawCommand::RectangleLines {
                x: x - 2,
                y: y - 2,
                width: 4 + cell_size * 3,
                height: 4 + cell_size * 3,
                color: Color::Red,
            },
        );
    } else {
        out.push(
            DrawCommand::RectangleLines {
                x: x - 1,
                y: y - 1,
                width: 2 + cell_size * 3,
                height: 2 + cell_size * 3,
                color: Color::Black,
            },
        );
    }
    proof {
        assert(out@ =~= start + small_puzzle_commands(
            *puzzle,
            x as int,
            y as int,
            cell_size as int,
            with_border,
        ));
    }
}

/// Where and at what scale a tree is drawn: the viewport, the pan offset and
/// the scale.
#[derive(Clone, Copy, Debug)]
pub struct ElementPainter {
    pub bound: IntRectBound,
    pub offset: (i32, i32),
    pub sizer: PuzzleSizer,
}

impl ElementPainter {
    /// The viewport, the offset and the scale are within their limits.
    pub open spec fn wf(&self) -> bool {
        &&& self.bound.wf()
        &&& self.sizer.wf()
        &&& -COORD_LIMIT <= self.offset.0 <= COORD_LIMIT
        &&& -COORD_LIMIT <= self.offset.1 <= COORD_LIMIT
    }

    /// Whether the viewport, the offset and the scale are within their limits.
    pub fn is_valid(&self) -> (b: bool)
        ensures
            b == self.wf(),
    {
        self.bound.is_valid() && self.sizer.is_valid() && -COORD_LIMIT <= self.offset.0
            && self.offset.0 <= COORD_LIMIT && -COORD_LIMIT <= self.offset.1 && self.offset.1
            <= COORD_LIMIT
    }

    /// The screen column of a node centred at `center_x`: moved by the
    /// offset, and onto the nearer edge where that lies outside the viewport.
    pub open spec fn column(&self, center_x: int) -> int {
        let x = center_x + self.offset.0;
        if self.bound.left <= x <= self.bound.right {
            x
        } else if x < self.bound.left {
            self.bound.left as int
        } else {
            self.bound.right as int
        }
    }

    /// The height of one level of the tree: a board, the lines below it and
    /// the room between.
    pub open spec fn level_height(&self) -> int {
        (4 * self.sizer.cell() + 1) + self.sizer.cell() * 3
    }

    /// The screen row of the nodes at `depth`; none where it lies below the
    /// bottom of the viewport.
    pub open spec fn row(&self, depth: int) -> Option<int> {
        let y = self.offset.1 + depth * self.level_height() + self.sizer.center_offset();
        if y > self.bound.bottom {
            None
        } else {
            Some(y)
        }
    }

    /// The colour of a line: red on the marked path, else black.
    pub open spec fn ink(on_path: bool) -> Color {
        if on_path {
            Color::Red
        } else {
            Color::Black
        }
    }

    /// The line from a node up to the bar of its parent.
    pub open spec fn line_up(&self, x: int, y: int, on_path: bool) -> DrawCommand {
        DrawCommand::Rectangle {
            x: x as i32,
            y: (y - self.sizer.cell() * 2 - self.sizer.center_offset()) as i32,
            width: 1,
            height: self.sizer.cell() as i32,
            color: Self::ink(on_path),
        }
    }

    /// The line from a node down to the bar of its children.
    pub open spec fn line_down(&self, x: int, y: int, on_path: bool) -> DrawCommand {
        DrawCommand::Rectangle {
            x: x as i32,
            y: (y + 1 + self.sizer.cell() + self.sizer.center_offset()) as i32,
            width: 1,
            height: self.sizer.cell() as i32,
            color: Self::ink(on_path),
        }
    }

    /// The bar below a node, from its first child to its last.
    pub open spec fn line_across(&self, left_x: int, right_x: int, y: int) -> DrawCommand {
        DrawCommand::Rectangle {
            x: left_x as i32,
            y: (y + 1 + 2 * self.sizer.cell() + self.sizer.center_offset()) as i32,
            width: (right_x - left_x + 1) as i32,
            height: 1,
            color: Color::Black,
        }
    }

    /// The part of the bar below a marked node that leads to its marked child.
    pub open spec fn line_across_on_path(&self, x: int, y: int, other_end: int) -> DrawCommand {
        let start = if x < other_end {
            x
        } else {
            other_end
        };
        let end = if x < other_end {
            other_end
        } else {
            x
        };
        DrawCommand::Rectangle {
            x: start as i32,
            y: (y + 1 + 2 * self.sizer.cell() + self.sizer.center_offset()) as i32,
            width: (end - start + 1) as i32,
            height: 1,
            color: Color::Red,
        }
    }

    /// A column that a node can have: within the viewport, or pinned beside it.
    pub open spec fn column_ok(x: int) -> bool {
        -COORD_LIMIT - PIN_DISTANCE <= x <= COORD_LIMIT + PIN_DISTANCE
    }

    /// A row that a node can have.
    pub open spec fn row_ok(y: int) -> bool {
        -COORD_LIMIT <= y <= COORD_LIMIT
    }

    /// The screen column of a node centred at `center_x`.
    pub fn get_draw_x(&self, center_x: i32) -> (x: i32)
        requires
            self.wf(),
        ensures
            x == self.column(center_x as int),
            Self::column_ok(x as int),
    {
        let x: i64 = center_x as i64 + self.offset.0 as i64;
        if x >= self.bound.left as i64 && x <= self.bound.right as i64 {
            x as i32
        } else if x < self.bound.left as i64 {
            self.bound.left
        } else {
            self.bound.right
        }
    }

    /// The screen row of the nodes at `depth`; `None` where it lies below
    /// the bottom of the viewport.
    pub fn get_draw_y(&self, depth: usize) -> (r: Option<i32>)
        requires
            self.wf(),
        ensures
            match r {
                Some(y) => self.row(depth as int) == Some(y as int) && Self::row_ok(y as int),
                None => self.row(depth as int) is None,
            },
    {
        let cell = self.sizer.puzzle_cell() as i128;
        let level: i128 = (4 * cell + 1) + cell * 3;
        assert(0 <= depth * level <= depth * 0x1000_0000) by (nonlinear_arith)
            requires
                0 <= depth,
                0 <= level <= 0x1000_0000,
        ;
        let y: i128 = self.offset.1 as i128 + depth as i128 * level
            + self.sizer.puzzle_center_offset() as i128;
        if y > self.bound.bottom as i128 {
            None
        } else {
            Some(y as i32)
        }
    }

    /// Adds to `out` the commands that draw the small board `puzzle` centred
    /// at (`x`, `y`).
    pub fn draw_small_puzzle(
        &self,
        out: &mut Vec<DrawCommand>,
        puzzle: &Puzzle,
        x: i32,
        y: i32,
        on_path: bool,
    )
        requires
            self.wf(),
            Self::column_ok(x as int),
            Self::row_ok(y as int),
        ensures
            final(out)@ == old(out)@ + self.board(*puzzle, x as int, y as int, on_path),
    {
        let cell_size = self.sizer.puzzle_cell();
        draw_small_puzzle(out, puzzle, SmallPuzzleCenter { x, y, cell_size }, on_path);
    }

    /// The commands that draw the small board `puzzle` centred at (`x`, `y`).
    pub open spec fn board(&self, puzzle: Puzzle, x: int, y: int, on_path: bool) -> Seq<
        DrawCommand,
    > {
        small_puzzle_commands(
            puzzle,
            x - self.sizer.cell() * 3 / 2,
            y - self.sizer.cell() * 3 / 2,
            self.sizer.cell(),
            on_path,
        )
    }

    /// The line from a node up to the bar of its parent.
    pub fn draw_line_up(&self, x: i32, y: i32, on_path: bool) -> (c: DrawCommand)
        requires
            self.wf(),
            Self::row_ok(y as int),
        ensures
            c == self.line_up(x as int, y as int, on_path),
    {
        DrawCommand::Rectangle {
            x,
            y: y - self.sizer.puzzle_cell() * 2 - self.sizer.puzzle_center_offset(),
            width: 1,
            height: self.sizer.puzzle_cell(),
            color: if on_path {
                Color::Red
            } else {
                Color::Black
            },
        }
    }

    /// The line from a node down to the bar of its children.
    pub fn draw_line_down(&self, x: i32, y: i32, on_path: bool) -> (c: DrawCommand)
        requires
            self.wf(),
            Self::row_ok(y as int),
        ensures
            c == self.line_down(x as int, y as int, on_path),
    {
        DrawCommand::Rectangle {
            x,
            y: y + 1 + self.sizer.puzzle_cell() + self.sizer.puzzle_center_offset(),
            width: 1,
            height: self.sizer.puzzle_cell(),
            color: if on_path {
                Color::Red
            } else {
                Color::Black
            },
        }
    }

    /// The bar below a node, from its first child to its last.
    pub fn draw_line_across(&self, left_x: i32, right_x: i32, y: i32) -> (c: DrawCommand)
        requires
            self.wf(),
            Self::row_ok(y as int),
            Self::column_ok(left_x as int),
            Self::column_ok(right_x as int),
        ensures
            c == self.line_across(left_x as int, right_x as int, y as int),
    {
        let line_y = y + 1 + 2 * self.sizer.puzzle_cell() + self.sizer.puzzle_center_offset();
        DrawCommand::Rectangle {
            x: left_x,
            y: line_y,
            width: right_x - left_x + 1,
            height: 1,
            color: Color::Black,
        }
    }

    /// The part of the bar below a marked node that leads to its marked child.
    pub fn draw_line_across_on_path(&self, x: i32, y: i32, other_end: i32) -> (c: DrawCommand)
        requires
            self.wf(),
            Self::row_ok(y as int),
            Self::column_ok(x as int),
            Self::column_ok(other_end as int),
        ensures
            c == self.line_across_on_path(x as int, y as int, other_end as int),
    {
        let line_y = y + 1 + 2 * self.sizer.puzzle_cell() + self.sizer.puzzle_center_offset();
        let (start_x, end_x) = if x < other_end {
            (x, other_end)
        } else {
            (other_end, x)
        };
        DrawCommand::Rectangle {
            x: start_x,
            y: line_y,
            width: end_x - start_x + 1,
            height: 1,
            color: Color::Red,
        }
    }
}

} // verus!
