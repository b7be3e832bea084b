use crate::graph::is_walk;
use crate::puzzle::{Direction, Puzzle};
use vstd::prelude::*;

verus! {

/// A way to estimate how many slides separate a board from the goal.
pub trait Heuristic: Sized {
    /// The estimate, as a function of the two boards.
    spec fn estimate(current: Puzzle, goal: Puzzle) -> int;

    /// An estimator, ready to estimate.
    fn new() -> Self;

    /// The estimate for `current`: never negative.
    fn estimate_h(&mut self, current: &Puzzle, goal: &Puzzle) -> (h: i32)
        ensures
            h == Self::estimate(*current, *goal),
            h >= 0,
    ;
}

/// The estimate never drops by more than one over a slide from a proper board.
pub open spec fn consistent<H: Heuristic>(goal: Puzzle) -> bool {
    forall|a: Puzzle, b: Puzzle|
        a.wf() && #[trigger] a.adjacent(b) ==> H::estimate(a, goal) <= H::estimate(b, goal) + 1
}

/// Along a walk a consistent estimate drops by no more than the slides made.
pub proof fn lemma_consistent_walk<H: Heuristic>(
    goal: Puzzle,
    walk: Seq<Puzzle>,
    from: int,
    to: int,
)
    requires
        consistent::<H>(goal),
        is_walk(walk),
        0 <= from <= to < walk.len(),
        forall|i: int| 0 <= i < walk.len() ==> (#[trigger] walk[i]).wf(),
    ensures
        H::estimate(walk[from], goal) <= H::estimate(walk[to], goal) + (to - from),
    decreases to - from,
{
    if from < to {
        lemma_consistent_walk::<H>(goal, walk, from + 1, to);
        assert(walk[from].wf());
        assert(crate::graph::slides(walk, from));
    }
}

/// The cells with index below `n` whose value differs between the two boards.
pub open spec fn misplaced(current: Puzzle, goal: Puzzle, n: int) -> int
    decreases n,
{
    if n <= 0 {
        0
    } else {
        misplaced(current, goal, n - 1) + if current.cell(n - 1) != goal.cell(n - 1) {
            1int
        } else {
            0int
        }
    }
}

/// The cells with index below `n` that hold a tile, and not the tile that
/// `goal` has there.
pub open spec fn misplaced_tiles(current: Puzzle, goal: Puzzle, n: int) -> int
    decreases n,
{
    if n <= 0 {
        0
    } else {
        misplaced_tiles(current, goal, n - 1) + if current.cell(n - 1) != goal.cell(n - 1)
            && current.cell(n - 1) != 0 {
            1int
        } else {
            0int
        }
    }
}

/// The estimate that is always 0: the search it guides is breadth-first.
pub struct BfsHeuristic {}

impl Heuristic for BfsHeuristic {
    open spec fn estimate(current: Puzzle, goal: Puzzle) -> int {
        0
    }

    fn new() -> Self {
        BfsHeuristic {  }
    }

    fn estimate_h(&mut self, _current: &Puzzle, _goal: &Puzzle) -> (h: i32) {
        0
    }
}

/// The number of cells whose value differs from the goal, the blank's included.
pub struct AStarHeuristic1 {}

impl Heuristic for AStarHeuristic1 {
    open spec fn estimate(current: Puzzle, goal: Puzzle) -> int {
        misplaced(current, goal, 9)
    }

    fn new() -> Self {
        AStarHeuristic1 {  }
    }

    fn estimate_h(&mut self, current: &Puzzle, goal: &Puzzle) -> (h: i32) {
        let mut count: i32 = 0;
        for i in 0..3usize
            invariant
                count == misplaced(*current, *goal, 3 * i),
                0 <= count <= 3 * i,
        {
            for j in 0..3usize
                invariant
                    i < 3,
                    count == misplaced(*current, *goal, 3 * i + j),
                    0 <= count <= 3 * i + j,
            {
                if current.get_value(i, j) != goal.get_value(i, j) {
                    count += 1;
                }
            }
        }
        count
    }
}

/// The number of tiles that are not where the goal has them; the blank is
/// never counted.
pub struct AStarHeuristic2 {}

impl Heuristic for AStarHeuristic2 {
    open spec fn estimate(current: Puzzle, goal: Puzzle) -> int {
        misplaced_tiles(current, goal, 9)
    }

    fn new() -> Self {
        AStarHeuristic2 {  }
    }

    fn estimate_h(&mut self, current: &Puzzle, goal: &Puzzle) -> (h: i32) {
        let mut count: i32 = 0;
        for i in 0..3usize
            invariant
                count == misplaced_tiles(*current, *goal, 3 * i),
                0 <= count <= 3 * i,
        {
            for j in 0..3usize
                invariant
                    i < 3,
                    count == misplaced_tiles(*current, *goal, 3 * i + j),
                    0 <= count <= 3 * i + j,
            {
                if current.get_value(i, j) != goal.get_value(i, j) && current.get_value(i, j) != 0 {
                    count += 1;
                }
            }
        }
        count
    }
}

/// Where two boards differ in cells `x` and `y` only, their counts of
/// misplaced tiles differ by what those two cells contribute.
proof fn lemma_misplaced_tiles_two_cells(a: Puzzle, b: Puzzle, goal: Puzzle, x: int, y: int, n: int)
    requires
        0 <= n <= 9,
        0 <= x < 9,
        0 <= y < 9,
        x != y,
        forall|k: int| 0 <= k < 9 && k != x && k != y ==> #[trigger] a.cell(k) == b.cell(k),
    ensures
        misplaced_tiles(b, goal, n) - misplaced_tiles(a, goal, n) == (if x < n {
            misplaced_tiles(b, goal, x + 1) - misplaced_tiles(b, goal, x) - (misplaced_tiles(
                a,
                goal,
                x + 1,
            ) - misplaced_tiles(a, goal, x))
        } else {
            0
        }) + (if y < n {
            misplaced_tiles(b, goal, y + 1) - misplaced_tiles(b, goal, y) - (misplaced_tiles(
                a,
                goal,
                y + 1,
            ) - misplaced_tiles(a, goal, y))
        } else {
            0
        }),
    decreases n,
{
    if n > 0 {
        lemma_misplaced_tiles_two_cells(a, b, goal, x, y, n - 1);
        if n - 1 != x && n - 1 != y {
            assert(a.cell(n - 1) == b.cell(n - 1));
        }
    }
}

/// The zero estimate is consistent.
pub proof fn lemma_bfs_consistent(goal: Puzzle)
    ensures
        consistent::<BfsHeuristic>(goal),
{
}

/// The count of misplaced tiles is consistent: a slide moves one tile.
pub proof fn lemma_misplaced_tiles_consistent(goal: Puzzle)
    ensures
        consistent::<AStarHeuristic2>(goal),
{
    assert forall|a: Puzzle, b: Puzzle| a.wf() && #[trigger] a.adjacent(b) implies misplaced_tiles(
        a,
        goal,
        9,
    ) <= misplaced_tiles(b, goal, 9) + 1 by {
        let d = choose|d: Direction| a.moved(d) == Some(b);
        a.lemma_moved(d);
        let x = a.blank();
        let y = crate::puzzle::slide_target(x, d)->0;
        lemma_misplaced_tiles_two_cells(a, b, goal, x, y, 9);
    }
}

/// Over the slides from index `i` to index `j` of the walk the estimate
/// drops by no more than their number and one.
pub open spec fn drop_within<H: Heuristic>(goal: Puzzle, walk: Seq<Puzzle>, i: int, j: int) -> bool {
    H::estimate(walk[i], goal) <= H::estimate(walk[j], goal) + (j - i) + 1
}

/// Every board of the walk is proper.
pub open spec fn all_proper(walk: Seq<Puzzle>) -> bool {
    forall|k: int| 0 <= k < walk.len() ==> (#[trigger] walk[k]).wf()
}

/// Along every walk over proper boards the estimate drops by no more than
/// the slides made and one: it is within one of a consistent estimate.
pub open spec fn nearly_consistent<H: Heuristic>(goal: Puzzle) -> bool {
    forall|walk: Seq<Puzzle>, i: int, j: int|
        is_walk(walk) && all_proper(walk) && 0 <= i <= j < walk.len() ==> #[trigger] drop_within::<
            H,
        >(goal, walk, i, j)
}

/// A consistent estimate is nearly consistent.
pub proof fn lemma_consistent_nearly<H: Heuristic>(goal: Puzzle)
    requires
        consistent::<H>(goal),
    ensures
        nearly_consistent::<H>(goal),
{
    assert forall|walk: Seq<Puzzle>, i: int, j: int|
        is_walk(walk) && all_proper(walk) && 0 <= i <= j < walk.len() implies #[trigger] drop_within::<
        H,
    >(goal, walk, i, j) by {
        lemma_consistent_walk::<H>(goal, walk, i, j);
    }
}

/// On a proper board the count of misplaced cells is the count of misplaced
/// tiles, and one more where the blank is not where the goal has it.
pub proof fn lemma_misplaced_counts(current: Puzzle, goal: Puzzle, n: int)
    requires
        current.wf(),
        0 <= n <= 9,
    ensures
        0 <= misplaced(current, goal, n) - misplaced_tiles(current, goal, n) <= if current.blank()
            < n {
            1int
        } else {
            0int
        },
    decreases n,
{
    current.lemma_wf_blank();
    if n > 0 {
        lemma_misplaced_counts(current, goal, n - 1);
        if n - 1 != current.blank() {
            assert(current.cell(n - 1) != 0);
        }
    }
}

/// The count of misplaced cells is nearly consistent: it is the count of
/// misplaced tiles, which is consistent, or one more.
pub proof fn lemma_misplaced_nearly_consistent(goal: Puzzle)
    ensures
        nearly_consistent::<AStarHeuristic1>(goal),
{
    lemma_misplaced_tiles_consistent(goal);
    assert forall|walk: Seq<Puzzle>, i: int, j: int|
        is_walk(walk) && all_proper(walk) && 0 <= i <= j < walk.len() implies #[trigger] drop_within::<
        AStarHeuristic1,
    >(goal, walk, i, j) by {
        lemma_consistent_walk::<AStarHeuristic2>(goal, walk, i, j);
        assert(walk[i].wf());
        assert(walk[j].wf());
        lemma_misplaced_counts(walk[i], goal, 9);
        lemma_misplaced_counts(walk[j], goal, 9);
    }
}

/// The count of misplaced tiles never overestimates: from a proper board
/// no walk to the goal has fewer slides than it says.
pub proof fn lemma_misplaced_tiles_admissible(goal: Puzzle, walk: Seq<Puzzle>)
    requires
        walk.len() > 0,
        is_walk(walk),
        all_proper(walk),
        walk.last() == goal,
    ensures
        AStarHeuristic2::estimate(walk[0], goal) <= walk.len() - 1,
{
    lemma_misplaced_tiles_consistent(goal);
    lemma_consistent_walk::<AStarHeuristic2>(goal, walk, 0, walk.len() - 1);
    lemma_none_misplaced(goal, 9);
}

/// The count of misplaced cells overestimates by no more than one.
pub proof fn lemma_misplaced_nearly_admissible(goal: Puzzle, walk: Seq<Puzzle>)
    requires
        walk.len() > 0,
        is_walk(walk),
        all_proper(walk),
        walk.last() == goal,
    ensures
        AStarHeuristic1::estimate(walk[0], goal) <= walk.len(),
{
    lemma_misplaced_tiles_admissible(goal, walk);
    assert(walk[0].wf());
    lemma_misplaced_counts(walk[0], goal, 9);
}

/// Measured against itself a board has nothing misplaced.
proof fn lemma_none_misplaced(goal: Puzzle, n: int)
    ensures
        misplaced_tiles(goal, goal, n) == 0,
        misplaced(goal, goal, n) == 0,
    decreases n,
{
    if n > 0 {
        lemma_none_misplaced(goal, n - 1);
    }
}

} // verus!
