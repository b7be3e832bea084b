use crate::puzzle::Puzzle;
use vstd::prelude::*;

verus! {

/// The board at index `i + 1` is one slide away from the board at index `i`.
pub open spec fn slides(walk: Seq<Puzzle>, i: int) -> bool {
    walk[i].adjacent(walk[i + 1])
}

/// Each board of `walk` but the last is one slide away from the next.
pub open spec fn is_walk(walk: Seq<Puzzle>) -> bool {
    forall|i: int| 0 <= i < walk.len() - 1 ==> #[trigger] slides(walk, i)
}

/// `walk` leads from `from` to `to`, slide by slide.
pub open spec fn connects(walk: Seq<Puzzle>, from: Puzzle, to: Puzzle) -> bool {
    &&& walk.len() > 0
    &&& walk[0] == from
    &&& walk.last() == to
    &&& is_walk(walk)
}

/// `to` can be reached from `from` in exactly `moves` slides.
pub open spec fn reachable_in(from: Puzzle, to: Puzzle, moves: int) -> bool {
    exists|walk: Seq<Puzzle>| #[trigger] connects(walk, from, to) && walk.len() == moves + 1
}

/// `to` can be reached from `from`.
pub open spec fn reachable(from: Puzzle, to: Puzzle) -> bool {
    exists|walk: Seq<Puzzle>| #[trigger] connects(walk, from, to)
}

/// No walk from `from` to `to` has fewer than `moves` slides.
pub open spec fn no_shorter(from: Puzzle, to: Puzzle, moves: int) -> bool {
    forall|walk: Seq<Puzzle>| #[trigger] connects(walk, from, to) ==> moves <= walk.len() - 1
}

/// `moves` is the least number of slides that lead from `from` to `to`.
pub open spec fn shortest(from: Puzzle, to: Puzzle, moves: int) -> bool {
    reachable_in(from, to, moves) && no_shorter(from, to, moves)
}

/// There is one least number of slides.
pub proof fn lemma_shortest_unique(from: Puzzle, to: Puzzle, a: int, b: int)
    requires
        shortest(from, to, a),
        shortest(from, to, b),
    ensures
        a == b,
{
    let wa = choose|walk: Seq<Puzzle>| #[trigger] connects(walk, from, to) && walk.len() == a + 1;
    let wb = choose|walk: Seq<Puzzle>| #[trigger] connects(walk, from, to) && walk.len() == b + 1;
    assert(connects(wa, from, to));
    assert(connects(wb, from, to));
}

/// A walk of no slides leads from a board to itself.
pub proof fn lemma_walk_start(a: Puzzle)
    ensures
        connects(seq![a], a, a),
        reachable_in(a, a, 0),
        shortest(a, a, 0),
{
    assert(connects(seq![a], a, a));
}

/// A walk can be continued by one slide.
pub proof fn lemma_walk_push(walk: Seq<Puzzle>, a: Puzzle, b: Puzzle, c: Puzzle)
    requires
        connects(walk, a, b),
        b.adjacent(c),
    ensures
        connects(walk.push(c), a, c),
{
    let w = walk.push(c);
    assert forall|i: int| 0 <= i < w.len() - 1 implies #[trigger] slides(w, i) by {
        if i < walk.len() - 1 {
            assert(slides(walk, i));
        }
    }
}

/// The first `n + 1` boards of a walk are a walk to the board at index `n`.
pub proof fn lemma_walk_take(walk: Seq<Puzzle>, a: Puzzle, b: Puzzle, n: int)
    requires
        connects(walk, a, b),
        0 <= n < walk.len(),
    ensures
        connects(walk.take(n + 1), a, walk[n]),
{
    let w = walk.take(n + 1);
    assert forall|i: int| 0 <= i < w.len() - 1 implies #[trigger] slides(w, i) by {
        assert(slides(walk, i));
    }
}

/// Every board on a walk that starts at a proper board is proper.
pub proof fn lemma_walk_wf(walk: Seq<Puzzle>, a: Puzzle, b: Puzzle, n: int)
    requires
        connects(walk, a, b),
        a.wf(),
        0 <= n < walk.len(),
    ensures
        walk[n].wf(),
    decreases n,
{
    if n > 0 {
        lemma_walk_wf(walk, a, b, n - 1);
        assert(slides(walk, n - 1));
        walk[n - 1].lemma_adjacent_symmetric(walk[n]);
    }
}

/// Which of the two kinds of cell the blank of a proper board stands on:
/// the kinds alternate like the squares of a chessboard.
#[verifier::opaque]
pub open spec fn shade(p: Puzzle) -> int {
    (p.blank() / 3 + p.blank() % 3) % 2
}

/// A slide takes the blank to a cell of the other kind.
pub proof fn lemma_slide_changes_shade(a: Puzzle, b: Puzzle)
    requires
        a.wf(),
        a.adjacent(b),
    ensures
        b.wf(),
        shade(b) != shade(a),
        0 <= shade(a) <= 1,
        0 <= shade(b) <= 1,
{
    reveal(shade);
    let d = choose|d: crate::puzzle::Direction| a.moved(d) == Some(b);
    a.lemma_moved(d);
    a.lemma_moved_wf(d);
    b.lemma_wf_blank();
    let k = crate::puzzle::slide_target(a.blank(), d)->0;
    if b.blank() != k {
        assert(b.cell(k) != 0);
    }
}

/// Along a walk from a proper board the kind of the blank's cell changes
/// with every slide.
pub proof fn lemma_walk_shade(walk: Seq<Puzzle>, a: Puzzle, b: Puzzle, n: int)
    requires
        connects(walk, a, b),
        a.wf(),
        0 <= n < walk.len(),
    ensures
        walk[n].wf(),
        shade(walk[n]) == (shade(a) + n) % 2,
    decreases n,
{
    if n > 0 {
        lemma_walk_shade(walk, a, b, n - 1);
        assert(slides(walk, n - 1));
        lemma_slide_changes_shade(walk[n - 1], walk[n]);
    } else {
        assert(0 <= shade(a) <= 1) by {
            reveal(shade);
        }
    }
}

/// Two walks from one proper board to one board differ by an even number of slides.
pub proof fn lemma_walks_same_parity(first: Seq<Puzzle>, second: Seq<Puzzle>, a: Puzzle, b: Puzzle)
    requires
        connects(first, a, b),
        connects(second, a, b),
        a.wf(),
    ensures
        (first.len() - second.len()) % 2 == 0,
{
    lemma_walk_shade(first, a, b, first.len() - 1);
    lemma_walk_shade(second, a, b, second.len() - 1);
}

} // verus!
