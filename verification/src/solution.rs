use crate::closed::SearchTree;
use crate::graph::{connects, lemma_walk_push, lemma_walk_start, reachable, shortest};
use crate::heuristic::{
    lemma_bfs_consistent, lemma_consistent_nearly, lemma_misplaced_nearly_consistent,
    lemma_misplaced_tiles_consistent, nearly_consistent, AStarHeuristic1, AStarHeuristic2,
    BfsHeuristic, Heuristic,
};
use crate::puzzle::Puzzle;
use crate::search::{hangs, lemma_optimal_is_shortest, search_result, tree_shaped};
use vstd::prelude::*;

verus! {

/// The states from `initial` to `s` as the record's parents give them, found
/// by at most `fuel` steps from a state to its parent. `None` where `initial`
/// is not met within those steps.
pub open spec fn trace(m: Map<Puzzle, (Puzzle, int)>, initial: Puzzle, s: Puzzle, fuel: nat) -> Option<
    Seq<Puzzle>,
>
    decreases fuel,
{
    if s == initial {
        Some(seq![initial])
    } else if fuel == 0 || !m.contains_key(s) {
        None
    } else {
        match trace(m, initial, m[s].0, (fuel - 1) as nat) {
            Some(p) => Some(p.push(s)),
            None => None,
        }
    }
}

/// The solution that the record holds: the states from `initial` to `goal`,
/// traced in as many steps as the goal's cost says.
pub open spec fn solution_of(m: Map<Puzzle, (Puzzle, int)>, initial: Puzzle, goal: Puzzle) -> Option<
    Seq<Puzzle>,
> {
    if m.contains_key(goal) && m[goal].1 >= 0 {
        trace(m, initial, goal, m[goal].1 as nat)
    } else {
        None
    }
}

/// `front`, where there is one, followed by `back`.
pub open spec fn followed_by(front: Option<Seq<Puzzle>>, back: Seq<Puzzle>) -> Option<Seq<Puzzle>> {
    match front {
        Some(p) => Some(p + back),
        None => None,
    }
}

/// In a tree-shaped record the trace of a state is a walk from the root to
/// it, of as many slides as its cost.
pub proof fn lemma_trace(initial: Puzzle, m: Map<Puzzle, (Puzzle, int)>, s: Puzzle)
    requires
        tree_shaped(initial, m),
        m.contains_key(s),
    ensures
        solution_of(m, initial, s) is Some,
        connects(solution_of(m, initial, s)->0, initial, s),
        (solution_of(m, initial, s)->0).len() == m[s].1 + 1,
    decreases m[s].1,
{
    if s == initial {
        lemma_walk_start(initial);
    } else {
        assert(hangs(m, s));
        let p = m[s].0;
        lemma_trace(initial, m, p);
        let w = solution_of(m, initial, p)->0;
        lemma_walk_push(w, initial, p, s);
    }
}

/// The solution that the record of a search holds: the states from `initial`
/// to `goal`, each one slide from the one before. `None` where the record
/// does not lead from `goal` back to `initial`.
pub fn solution_path<S: SearchTree>(tree: &S, initial: &Puzzle, goal: &Puzzle) -> (r: Option<
    Vec<Puzzle>,
>)
    requires
        tree.wf(),
    ensures
        match r {
            Some(path) => solution_of(tree.entries(), *initial, *goal) == Some(path@),
            None => solution_of(tree.entries(), *initial, *goal) is None,
        },
{
    let cost = match tree.get(goal) {
        Some(entry) => entry.1,
        None => {
            return None;
        },
    };
    if cost < 0 {
        return None;
    }
    let ghost m = tree.entries();
    let mut back: Vec<Puzzle> = Vec::new();
    let mut current = *goal;
    let mut left = cost;
    while current != *initial
        invariant
            tree.wf(),
            m == tree.entries(),
            0 <= left,
            solution_of(m, *initial, *goal) == followed_by(
                trace(m, *initial, current, left as nat),
                back@.reverse(),
            ),
        decreases left,
    {
        if left == 0 {
            return None;
        }
        match tree.get(&current) {
            Some(entry) => {
                proof {
                    let rest = trace(m, *initial, entry.0, (left - 1) as nat);
                    if rest is Some {
                        assert(rest->0.push(current) + back@.reverse() =~= rest->0 + back@.push(
                            current,
                        ).reverse());
                    }
                }
                back.push(current);
                current = entry.0;
                left = left - 1;
            },
            None => {
                return None;
            },
        }
    }
    let mut path: Vec<Puzzle> = Vec::new();
    path.push(*initial);
    let mut i = back.len();
    while i > 0
        invariant
            i <= back.len(),
            path@ == seq![*initial] + back@.reverse().take(back.len() - i),
        decreases i,
    {
        i = i - 1;
        path.push(back[i]);
        proof {
            let r = back@.reverse();
            let n = back.len() - i;
            assert(r.take(n) =~= r.take(n - 1).push(r[n - 1]));
            assert(r[n - 1] == back@[i as int]);
            assert(path@ =~= seq![*initial] + r.take(n));
        }
    }
    proof {
        assert(back@.reverse().take(back.len() as int) =~= back@.reverse());
    }
    Some(path)
}

/// The cost at which the record holds `goal`: the number of slides of the
/// solution. `None` where the record does not hold `goal`.
pub fn solution_cost<S: SearchTree>(tree: &S, goal: &Puzzle) -> (r: Option<i32>)
    requires
        tree.wf(),
    ensures
        match r {
            Some(g) => tree.entries().contains_key(*goal) && tree.entries()[*goal].1 == g,
            None => !tree.entries().contains_key(*goal),
        },
{
    match tree.get(goal) {
        Some(entry) => Some(entry.1),
        None => None,
    }
}

/// A search whose estimates are nearly consistent finds, for every goal
/// that can be reached, a solution of the least number of slides.
pub proof fn lemma_search_shortest<H: Heuristic>(
    initial: Puzzle,
    goal: Puzzle,
    m: Map<Puzzle, (Puzzle, int)>,
)
    requires
        search_result::<H>(initial, goal, m),
        nearly_consistent::<H>(goal),
        reachable(initial, goal),
    ensures
        m.contains_key(goal),
        shortest(initial, goal, m[goal].1),
        solution_of(m, initial, goal) is Some,
        connects(solution_of(m, initial, goal)->0, initial, goal),
        (solution_of(m, initial, goal)->0).len() == m[goal].1 + 1,
{
    lemma_optimal_is_shortest(initial, m, goal);
    lemma_trace(initial, m, goal);
}

/// Breadth-first search finds, for every goal that can be reached, a
/// solution of the least number of slides.
pub proof fn lemma_breadth_first_shortest(
    initial: Puzzle,
    goal: Puzzle,
    m: Map<Puzzle, (Puzzle, int)>,
)
    requires
        search_result::<BfsHeuristic>(initial, goal, m),
        reachable(initial, goal),
    ensures
        m.contains_key(goal),
        shortest(initial, goal, m[goal].1),
        solution_of(m, initial, goal) is Some,
        connects(solution_of(m, initial, goal)->0, initial, goal),
        (solution_of(m, initial, goal)->0).len() == m[goal].1 + 1,
{
    lemma_bfs_consistent(goal);
    lemma_consistent_nearly::<BfsHeuristic>(goal);
    lemma_search_shortest::<BfsHeuristic>(initial, goal, m);
}

/// Two searches with nearly consistent estimates find, for a goal that can
/// be reached, solutions of the same number of slides.
pub proof fn lemma_searches_agree<H: Heuristic, K: Heuristic>(
    initial: Puzzle,
    goal: Puzzle,
    first: Map<Puzzle, (Puzzle, int)>,
    second: Map<Puzzle, (Puzzle, int)>,
)
    requires
        search_result::<H>(initial, goal, first),
        search_result::<K>(initial, goal, second),
        nearly_consistent::<H>(goal),
        nearly_consistent::<K>(goal),
        reachable(initial, goal),
    ensures
        first.contains_key(goal),
        second.contains_key(goal),
        first[goal].1 == second[goal].1,
        solution_of(first, initial, goal) is Some,
        solution_of(second, initial, goal) is Some,
        (solution_of(first, initial, goal)->0).len() == (solution_of(
            second,
            initial,
            goal,
        )->0).len(),
{
    lemma_search_shortest::<H>(initial, goal, first);
    lemma_search_shortest::<K>(initial, goal, second);
    crate::graph::lemma_shortest_unique(initial, goal, first[goal].1, second[goal].1);
}

/// For a goal that can be reached, the search guided by the count of
/// misplaced cells and the search guided by the count of misplaced tiles
/// both find a solution as short as that of breadth-first search.
pub proof fn lemma_guided_match_breadth_first(
    initial: Puzzle,
    goal: Puzzle,
    breadth_first: Map<Puzzle, (Puzzle, int)>,
    by_cells: Map<Puzzle, (Puzzle, int)>,
    by_tiles: Map<Puzzle, (Puzzle, int)>,
)
    requires
        search_result::<BfsHeuristic>(initial, goal, breadth_first),
        search_result::<AStarHeuristic1>(initial, goal, by_cells),
        search_result::<AStarHeuristic2>(initial, goal, by_tiles),
        reachable(initial, goal),
    ensures
        breadth_first.contains_key(goal),
        by_cells.contains_key(goal),
        by_tiles.contains_key(goal),
        by_cells[goal].1 == breadth_first[goal].1,
        by_tiles[goal].1 == breadth_first[goal].1,
        (solution_of(by_cells, initial, goal)->0).len() == (solution_of(
            breadth_first,
            initial,
            goal,
        )->0).len(),
        (solution_of(by_tiles, initial, goal)->0).len() == (solution_of(
            breadth_first,
            initial,
            goal,
        )->0).len(),
{
    lemma_bfs_consistent(goal);
    lemma_consistent_nearly::<BfsHeuristic>(goal);
    lemma_misplaced_tiles_consistent(goal);
    lemma_consistent_nearly::<AStarHeuristic2>(goal);
    lemma_misplaced_nearly_consistent(goal);
    lemma_searches_agree::<AStarHeuristic1, BfsHeuristic>(initial, goal, by_cells, breadth_first);
    lemma_searches_agree::<AStarHeuristic2, BfsHeuristic>(initial, goal, by_tiles, breadth_first);
}

/// A search from a state to itself settles that state alone, and its
/// solution is that one state.
pub proof fn lemma_initial_is_goal<H: Heuristic>(initial: Puzzle, m: Map<Puzzle, (Puzzle, int)>)
    requires
        search_result::<H>(initial, initial, m),
    ensures
        m == Map::<Puzzle, (Puzzle, int)>::empty().insert(initial, (initial, 0int)),
        solution_of(m, initial, initial) == Some(seq![initial]),
{
}

} // verus!
