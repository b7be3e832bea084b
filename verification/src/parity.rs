use crate::graph::{connects, reachable, slides};
use crate::heuristic::Heuristic;
use crate::puzzle::{slide_target, Direction, Puzzle};
use crate::search::search_result;
use vstd::prelude::*;

verus! {

/// The sum of `f(i, j)` over the cells `j` with `i < j < n`.
pub open spec fn sum_with(f: spec_fn(int, int) -> int, i: int, n: int) -> int
    decreases n - i,
{
    if n <= i + 1 {
        0
    } else {
        sum_with(f, i, n - 1) + f(i, n - 1)
    }
}

/// The sum of `f(i, j)` over the pairs of cells `i < j` with `i < m`.
pub open spec fn sum_pairs(f: spec_fn(int, int) -> int, m: int) -> int
    decreases m,
{
    if m <= 0 {
        0
    } else {
        sum_pairs(f, m - 1) + sum_with(f, m - 1, 9)
    }
}

/// 1 where cells `i` and `j` both hold a tile and the tile in `i` is the
/// larger, else 0.
pub open spec fn inverted(p: Puzzle, i: int, j: int) -> int {
    if p.cell(i) != 0 && p.cell(j) != 0 && p.cell(i) > p.cell(j) {
        1
    } else {
        0
    }
}

/// The number of pairs of tiles that stand in the wrong order when the board
/// is read row by row.
pub open spec fn inversions(p: Puzzle) -> int {
    sum_pairs(|i: int, j: int| inverted(p, i, j), 9)
}

/// Whether the board holds an odd number of pairs in the wrong order.
pub open spec fn odd(p: Puzzle) -> bool {
    inversions(p) % 2 == 1
}

proof fn lemma_sum_with_difference(
    f: spec_fn(int, int) -> int,
    g: spec_fn(int, int) -> int,
    i: int,
    n: int,
)
    ensures
        sum_with(f, i, n) - sum_with(g, i, n) == sum_with(|a: int, b: int| f(a, b) - g(a, b), i, n),
    decreases n - i,
{
    if n > i + 1 {
        lemma_sum_with_difference(f, g, i, n - 1);
    }
}

proof fn lemma_sum_pairs_difference(f: spec_fn(int, int) -> int, g: spec_fn(int, int) -> int, m: int)
    ensures
        sum_pairs(f, m) - sum_pairs(g, m) == sum_pairs(|a: int, b: int| f(a, b) - g(a, b), m),
    decreases m,
{
    if m > 0 {
        lemma_sum_pairs_difference(f, g, m - 1);
        lemma_sum_with_difference(f, g, m - 1, 9);
    }
}

/// A sum over the pairs of cells is even where only the pairs with the cell
/// `lo` or the cell `hi` count, those with a cell before `lo` or behind `hi`
/// cancel, and those with one of the two cells between them add up to 2, 0 or -2.
proof fn lemma_sum_even(f: spec_fn(int, int) -> int, lo: int, hi: int)
    requires
        0 <= lo < hi < 9,
        hi == lo + 1 || hi == lo + 3,
        forall|i: int, j: int|
            0 <= i < j < 9 && i != lo && i != hi && j != lo && j != hi ==> #[trigger] f(i, j) == 0,
        forall|x: int| 0 <= x < lo ==> #[trigger] f(x, lo) + f(x, hi) == 0,
        forall|x: int| hi < x < 9 ==> f(lo, x) + #[trigger] f(hi, x) == 0,
        forall|x: int|
            lo < x < hi ==> #[trigger] f(lo, x) + f(x, hi) == 1 || f(lo, x) + f(x, hi) == -1,
        f(lo, hi) == 0,
    ensures
        sum_pairs(f, 9) % 2 == 0,
{
    reveal_with_fuel(sum_pairs, 10);
    reveal_with_fuel(sum_with, 10);
    if hi == lo + 1 {
        if lo == 0 {
        } else if lo == 1 {
        } else if lo == 2 {
        } else if lo == 3 {
        } else if lo == 4 {
        } else if lo == 5 {
        } else if lo == 6 {
        } else {
        }
    } else {
        if lo == 0 {
        } else if lo == 1 {
        } else if lo == 2 {
        } else if lo == 3 {
        } else if lo == 4 {
        } else {
        }
    }
}

/// A slide keeps the parity of a proper board: a tile that moves along a
/// row passes no tile, one that moves along a column passes two.
pub proof fn lemma_slide_keeps_parity(p: Puzzle, d: Direction)
    requires
        p.wf(),
        p.moved(d) is Some,
    ensures
        odd(p.moved(d)->0) == odd(p),
{
    let q = p.moved(d)->0;
    let b = p.blank();
    let k = slide_target(b, d)->0;
    p.lemma_moved(d);
    p.lemma_wf_blank();
    let lo = if b < k {
        b
    } else {
        k
    };
    let hi = if b < k {
        k
    } else {
        b
    };
    let fp = |i: int, j: int| inverted(p, i, j);
    let fq = |i: int, j: int| inverted(q, i, j);
    let f = |i: int, j: int| fq(i, j) - fp(i, j);
    lemma_sum_pairs_difference(fq, fp, 9);
    assert forall|i: int, j: int|
        0 <= i < j < 9 && i != lo && i != hi && j != lo && j != hi implies #[trigger] f(i, j)
        == 0 by {
        assert(q.cell(i) == p.cell(i));
        assert(q.cell(j) == p.cell(j));
    }
    assert forall|x: int| 0 <= x < lo implies #[trigger] f(x, lo) + f(x, hi) == 0 by {
        assert(q.cell(x) == p.cell(x));
    }
    assert forall|x: int| hi < x < 9 implies f(lo, x) + #[trigger] f(hi, x) == 0 by {
        assert(q.cell(x) == p.cell(x));
    }
    assert forall|x: int| lo < x < hi implies #[trigger] f(lo, x) + f(x, hi) == 1 || f(lo, x) + f(
        x,
        hi,
    ) == -1 by {
        assert(q.cell(x) == p.cell(x));
        assert(p.cell(x) != 0);
        if x < k {
            assert(p.cell(x) != p.cell(k));
        } else {
            assert(p.cell(k) != p.cell(x));
        }
    }
    lemma_sum_even(f, lo, hi);
}

/// The boards along a walk from a proper board all have its parity.
pub proof fn lemma_walk_keeps_parity(walk: Seq<Puzzle>, a: Puzzle, b: Puzzle, n: int)
    requires
        connects(walk, a, b),
        a.wf(),
        0 <= n < walk.len(),
    ensures
        walk[n].wf(),
        odd(walk[n]) == odd(a),
    decreases n,
{
    if n > 0 {
        lemma_walk_keeps_parity(walk, a, b, n - 1);
        assert(slides(walk, n - 1));
        let from = walk[n - 1];
        let to = walk[n];
        let d = choose|d: Direction| from.moved(d) == Some(to);
        lemma_slide_keeps_parity(from, d);
        from.lemma_moved_wf(d);
    }
}

/// A proper board cannot be reached from a proper board of the other parity.
pub proof fn lemma_parity_separates(a: Puzzle, b: Puzzle)
    requires
        a.wf(),
        odd(a) != odd(b),
    ensures
        !reachable(a, b),
{
    if reachable(a, b) {
        let walk = choose|walk: Seq<Puzzle>| #[trigger] connects(walk, a, b);
        lemma_walk_keeps_parity(walk, a, b, walk.len() - 1);
    }
}

/// A search between two boards of different parity ends without the goal:
/// it settles every state that can be reached, and the goal is none of them.
pub proof fn lemma_parity_mismatch_exhausts<H: Heuristic>(
    initial: Puzzle,
    goal: Puzzle,
    m: Map<Puzzle, (Puzzle, int)>,
)
    requires
        initial.wf(),
        odd(initial) != odd(goal),
        search_result::<H>(initial, goal, m),
    ensures
        !m.contains_key(goal),
        forall|s: Puzzle| #[trigger] reachable(initial, s) ==> m.contains_key(s),
{
    lemma_parity_separates(initial, goal);
}

} // verus!
