use crate::closed::SearchTree;
use crate::graph::{
    connects, is_walk, lemma_walk_push, lemma_walk_start, lemma_walk_take, lemma_walk_wf,
    lemma_walks_same_parity,
    no_shorter, reachable, reachable_in, shortest, slides,
};
use crate::heuristic::{all_proper, drop_within, nearly_consistent, Heuristic};
use crate::open_set::{
    backed, entry_point, first_live, lemma_first_live_is, live_after_push, matches_live,
    queue_after_push, sorted_by_f, OpenNode, OpenSet,
};
use crate::puzzle::{Direction, Puzzle};
use vstd::prelude::*;

verus! {

/// The number of boards whose cells all hold a value below 9: more than the
/// number of proper boards.
pub open spec fn state_bound() -> int {
    387_420_489
}

/// `s` hangs on its recorded parent: the parent is recorded too, one slide
/// away and one slide cheaper.
pub open spec fn hangs(m: Map<Puzzle, (Puzzle, int)>, s: Puzzle) -> bool {
    &&& m.contains_key(m[s].0)
    &&& m[s].1 == m[m[s].0].1 + 1
    &&& m[s].0.adjacent(s)
}

/// The record is a tree rooted at `initial`: the root is its own parent at
/// cost 0 and every other state hangs on its parent.
pub open spec fn tree_shaped(initial: Puzzle, m: Map<Puzzle, (Puzzle, int)>) -> bool {
    &&& m.dom().finite()
    &&& m.contains_key(initial)
    &&& m[initial] == (initial, 0int)
    &&& forall|s: Puzzle| #[trigger] m.contains_key(s) ==> s.wf() && 0 <= m[s].1 < m.dom().len()
    &&& forall|s: Puzzle| m.contains_key(s) && s != initial ==> #[trigger] hangs(m, s)
}

/// Every open state is proper, not settled, and hangs on a settled state.
pub open spec fn live_attached(
    closed: Map<Puzzle, (Puzzle, int)>,
    live: Map<Puzzle, (Puzzle, int)>,
) -> bool {
    forall|s: Puzzle| #[trigger]
        live.contains_key(s) ==> {
            &&& s.wf()
            &&& !closed.contains_key(s)
            &&& closed.contains_key(live[s].0)
            &&& live[s].1 == closed[live[s].0].1 + 1
            &&& live[s].0.adjacent(s)
        }
}

/// `n` is settled, or open at a cost of at most `g`.
pub open spec fn covered(
    closed: Map<Puzzle, (Puzzle, int)>,
    live: Map<Puzzle, (Puzzle, int)>,
    n: Puzzle,
    g: int,
) -> bool {
    closed.contains_key(n) || (live.contains_key(n) && live[n].1 <= g)
}

/// Every successor of a settled state other than the goal is covered; of the
/// state `s` only the successors in the first `upto` directions need be.
pub open spec fn complete_upto(
    closed: Map<Puzzle, (Puzzle, int)>,
    live: Map<Puzzle, (Puzzle, int)>,
    goal: Puzzle,
    s: Puzzle,
    upto: int,
) -> bool {
    forall|c: Puzzle, d: Direction|
        closed.contains_key(c) && c != goal && (#[trigger] c.moved(d)) is Some && (c != s
            || d.index() < upto) ==> covered(closed, live, c.moved(d)->0, closed[c].1 + 1)
}

/// Every record carries the estimate of `H` for its state.
pub open spec fn estimated<H: Heuristic>(queue: Seq<OpenNode>, goal: Puzzle) -> bool {
    forall|i: int|
        0 <= i < queue.len() ==> (#[trigger] queue[i]).h == H::estimate(queue[i].puzzle, goal)
}

/// No settled state can be reached in fewer slides than its recorded cost.
pub open spec fn optimal(initial: Puzzle, m: Map<Puzzle, (Puzzle, int)>) -> bool {
    forall|s: Puzzle| #[trigger] m.contains_key(s) ==> no_shorter(initial, s, m[s].1)
}

/// The state of a search before its first expansion: the initial state is
/// settled and also waits in the open set.
pub open spec fn starting(
    initial: Puzzle,
    closed: Map<Puzzle, (Puzzle, int)>,
    live: Map<Puzzle, (Puzzle, int)>,
    queue: Seq<OpenNode>,
) -> bool {
    &&& initial.wf()
    &&& closed == Map::<Puzzle, (Puzzle, int)>::empty().insert(initial, (initial, 0int))
    &&& live == closed
    &&& queue == seq![OpenNode { puzzle: initial, parent: initial, g: 0, h: 0 }]
}

/// The state of a search while the state `s` is being expanded and its
/// successors in the first `upto` directions have been dealt with.
#[verifier::opaque]
pub open spec fn expanding<H: Heuristic>(
    initial: Puzzle,
    goal: Puzzle,
    closed: Map<Puzzle, (Puzzle, int)>,
    live: Map<Puzzle, (Puzzle, int)>,
    queue: Seq<OpenNode>,
    s: Puzzle,
    upto: int,
) -> bool {
    &&& tree_shaped(initial, closed)
    &&& !closed.contains_key(goal)
    &&& live_attached(closed, live)
    &&& complete_upto(closed, live, goal, s, upto)
    &&& estimated::<H>(queue, goal)
    &&& nearly_consistent::<H>(goal) ==> optimal(initial, closed)
}

/// What a finished search leaves in its record.
pub open spec fn search_result<H: Heuristic>(
    initial: Puzzle,
    goal: Puzzle,
    m: Map<Puzzle, (Puzzle, int)>,
) -> bool {
    &&& tree_shaped(initial, m)
    &&& m.contains_key(goal) <==> reachable(initial, goal)
    &&& !m.contains_key(goal) ==> forall|s: Puzzle| #[trigger]
        reachable(initial, s) ==> m.contains_key(s)
    &&& nearly_consistent::<H>(goal) ==> optimal(initial, m)
    &&& initial == goal ==> m == Map::<Puzzle, (Puzzle, int)>::empty().insert(
        initial,
        (initial, 0int),
    )
}

/// The state of a search: what is settled, what is open, and the queue of
/// records.
pub struct Frontier {
    pub closed: Map<Puzzle, (Puzzle, int)>,
    pub live: Map<Puzzle, (Puzzle, int)>,
    pub queue: Seq<OpenNode>,
}

/// The state in which a search from `initial` starts.
pub open spec fn start(initial: Puzzle) -> Frontier {
    let only = Map::<Puzzle, (Puzzle, int)>::empty().insert(initial, (initial, 0int));
    Frontier {
        closed: only,
        live: only,
        queue: seq![OpenNode { puzzle: initial, parent: initial, g: 0, h: 0 }],
    }
}

/// The state after the next open state has left the queue and is settled.
pub open spec fn settle(st: Frontier) -> Frontier {
    let k = first_live(st.queue, st.live);
    let s = st.queue[k].puzzle;
    Frontier {
        closed: st.closed.insert(s, (st.live[s].0, st.queue[k].g as int)),
        live: st.live.remove(s),
        queue: st.queue.skip(k + 1),
    }
}

/// The state after the successor of the settled state `s` in direction `d`
/// is dealt with: it is pushed, one slide dearer than `s`, unless there is
/// none or it is settled.
pub open spec fn relax<H: Heuristic>(st: Frontier, goal: Puzzle, s: Puzzle, d: Direction) -> Frontier {
    match s.moved(d) {
        Some(next) => if st.closed.contains_key(next) {
            st
        } else {
            let node = OpenNode {
                puzzle: next,
                parent: s,
                g: (st.closed[s].1 + 1) as i32,
                h: H::estimate(next, goal) as i32,
            };
            Frontier {
                closed: st.closed,
                live: live_after_push(st.live, node),
                queue: queue_after_push(st.queue, node),
            }
        },
        None => st,
    }
}

/// The state after the successors of `s` in the first `upto` directions are
/// dealt with.
#[verifier::opaque]
pub open spec fn relax_upto<H: Heuristic>(st: Frontier, goal: Puzzle, s: Puzzle, upto: int) -> Frontier
    decreases upto,
{
    if upto <= 0 {
        st
    } else {
        relax::<H>(relax_upto::<H>(st, goal, s, upto - 1), goal, s, Direction::order()[upto - 1])
    }
}

/// The state in which a search that starts in state `st` ends, if it ends
/// within `fuel` rounds: each round settles the next open state and, unless
/// that is the goal, deals with its four successors.
#[verifier::opaque]
pub open spec fn run<H: Heuristic>(goal: Puzzle, st: Frontier, fuel: nat) -> Frontier
    decreases fuel,
{
    let k = first_live(st.queue, st.live);
    if fuel == 0 {
        st
    } else if k >= st.queue.len() {
        Frontier { queue: Seq::empty(), ..st }
    } else if st.queue[k].puzzle == goal {
        settle(st)
    } else {
        run::<H>(
            goal,
            relax_upto::<H>(settle(st), goal, st.queue[k].puzzle, 4),
            (fuel - 1) as nat,
        )
    }
}

/// What the record is told of the successor of `s` in direction `d`, if
/// there is one: the two states, and whether the successor goes into the
/// open set, which it does unless it is settled.
pub open spec fn attempt(closed: Map<Puzzle, (Puzzle, int)>, s: Puzzle, d: Direction) -> Seq<
    (Puzzle, Puzzle, bool),
> {
    match s.moved(d) {
        Some(next) => seq![(s, next, !closed.contains_key(next))],
        None => Seq::empty(),
    }
}

/// What the record is told of the successors of `s` in the first `upto`
/// directions.
#[verifier::opaque]
pub open spec fn attempts(closed: Map<Puzzle, (Puzzle, int)>, s: Puzzle, upto: int) -> Seq<
    (Puzzle, Puzzle, bool),
>
    decreases upto,
{
    if upto <= 0 {
        Seq::empty()
    } else {
        attempts(closed, s, upto - 1) + attempt(closed, s, Direction::order()[upto - 1])
    }
}

/// What the record is told in the rounds of a search that starts in state
/// `st`: after each state that is expanded, of its successors.
#[verifier::opaque]
pub open spec fn run_told<H: Heuristic>(goal: Puzzle, st: Frontier, fuel: nat) -> Seq<
    (Puzzle, Puzzle, bool),
>
    decreases fuel,
{
    let k = first_live(st.queue, st.live);
    if fuel == 0 || k >= st.queue.len() || st.queue[k].puzzle == goal {
        Seq::empty()
    } else {
        attempts(settle(st).closed, st.queue[k].puzzle, 4) + run_told::<H>(
            goal,
            relax_upto::<H>(settle(st), goal, st.queue[k].puzzle, 4),
            (fuel - 1) as nat,
        )
    }
}

/// What a search from `initial` for `goal` settles: the record in which the
/// rounds of the search end.
pub open spec fn outcome<H: Heuristic>(initial: Puzzle, goal: Puzzle) -> Map<Puzzle, (Puzzle, int)> {
    run::<H>(goal, start(initial), state_bound() as nat).closed
}

/// What the record is told in the course of a search from `initial` for
/// `goal`: of every successor of every state that is expanded, in the order
/// in which the states are expanded and the directions are tried.
pub open spec fn narration<H: Heuristic>(initial: Puzzle, goal: Puzzle) -> Seq<
    (Puzzle, Puzzle, bool),
> {
    run_told::<H>(goal, start(initial), state_bound() as nat)
}

/// Dealing with one direction more is one more step of `relax`.
proof fn lemma_relax_upto<H: Heuristic>(st: Frontier, goal: Puzzle, s: Puzzle, d: Direction)
    ensures
        relax_upto::<H>(st, goal, s, 0) == st,
        relax_upto::<H>(st, goal, s, d.index() + 1) == relax::<H>(
            relax_upto::<H>(st, goal, s, d.index()),
            goal,
            s,
            d,
        ),
{
    reveal_with_fuel(relax_upto, 2);
    assert(Direction::order()[d.index()] == d);
}

/// What is told of one direction more.
proof fn lemma_attempts(closed: Map<Puzzle, (Puzzle, int)>, s: Puzzle, d: Direction)
    ensures
        attempts(closed, s, 0) == Seq::<(Puzzle, Puzzle, bool)>::empty(),
        attempts(closed, s, d.index() + 1) == attempts(closed, s, d.index()) + attempt(
            closed,
            s,
            d,
        ),
{
    reveal_with_fuel(attempts, 2);
    assert(Direction::order()[d.index()] == d);
}

/// What is told in one round of a search that has fuel left, and after it.
proof fn lemma_run_told<H: Heuristic>(goal: Puzzle, st: Frontier, fuel: nat)
    requires
        fuel >= 1,
    ensures
        run_told::<H>(goal, st, fuel) == {
            let k = first_live(st.queue, st.live);
            if k >= st.queue.len() || st.queue[k].puzzle == goal {
                Seq::empty()
            } else {
                attempts(settle(st).closed, st.queue[k].puzzle, 4) + run_told::<H>(
                    goal,
                    relax_upto::<H>(settle(st), goal, st.queue[k].puzzle, 4),
                    (fuel - 1) as nat,
                )
            }
        },
{
    reveal_with_fuel(run_told, 2);
}

/// One round of a search that has fuel left.
proof fn lemma_run<H: Heuristic>(goal: Puzzle, st: Frontier, fuel: nat)
    requires
        fuel >= 1,
    ensures
        run::<H>(goal, st, fuel) == {
            let k = first_live(st.queue, st.live);
            if k >= st.queue.len() {
                Frontier { queue: Seq::empty(), ..st }
            } else if st.queue[k].puzzle == goal {
                settle(st)
            } else {
                run::<H>(
                    goal,
                    relax_upto::<H>(settle(st), goal, st.queue[k].puzzle, 4),
                    (fuel - 1) as nat,
                )
            }
        },
{
    reveal_with_fuel(run, 2);
}

/// A finite set of proper boards has fewer than `state_bound()` members.
pub proof fn lemma_proper_boards_bounded(boards: Set<Puzzle>)
    requires
        boards.finite(),
        forall|p: Puzzle| #[trigger] boards.contains(p) ==> p.wf(),
    ensures
        boards.len() <= state_bound(),
{
    let rank = |p: Puzzle| p.rank() as int;
    let ranks = boards.map(rank);
    assert(vstd::relations::injective_on(rank, boards)) by {
        assert forall|a: Puzzle, b: Puzzle|
            boards.contains(a) && boards.contains(b) && #[trigger] rank(a) == #[trigger] rank(
                b,
            ) implies a == b by {
            a.lemma_rank(b);
        }
    }
    vstd::set_lib::lemma_map_size(boards, ranks, rank);
    let range = vstd::set_lib::set_int_range(0, state_bound());
    vstd::set_lib::lemma_int_range(0, state_bound());
    assert(ranks.subset_of(range)) by {
        assert forall|r: int| ranks.contains(r) implies range.contains(r) by {
            let p = choose|p: Puzzle| boards.contains(p) && r == rank(p);
            p.lemma_rank(p);
        }
    }
    vstd::set_lib::lemma_len_subset(ranks, range);
}

/// In a tree-shaped record every state is reached from the root in as many
/// slides as its cost says.
pub proof fn lemma_tree_walk(initial: Puzzle, m: Map<Puzzle, (Puzzle, int)>, s: Puzzle)
    requires
        tree_shaped(initial, m),
        m.contains_key(s),
    ensures
        reachable_in(initial, s, m[s].1),
        reachable(initial, s),
    decreases m[s].1,
{
    if s == initial {
        lemma_walk_start(initial);
    } else {
        let p = m[s].0;
        assert(hangs(m, s));
        lemma_tree_walk(initial, m, p);
        let w = choose|w: Seq<Puzzle>| #[trigger] connects(w, initial, p) && w.len() == m[p].1 + 1;
        lemma_walk_push(w, initial, p, s);
        assert(connects(w.push(s), initial, s));
    }
}

/// Costs that no walk undercuts are the least numbers of slides.
pub proof fn lemma_optimal_is_shortest(initial: Puzzle, m: Map<Puzzle, (Puzzle, int)>, s: Puzzle)
    requires
        tree_shaped(initial, m),
        optimal(initial, m),
        m.contains_key(s),
    ensures
        shortest(initial, s, m[s].1),
{
    lemma_tree_walk(initial, m, s);
}

/// On a walk that starts inside `closed` and is outside it at index `n`,
/// some step leaves `closed`.
proof fn lemma_first_outside(walk: Seq<Puzzle>, closed: Map<Puzzle, (Puzzle, int)>, n: int) -> (j:
    int)
    requires
        0 <= n < walk.len(),
        closed.contains_key(walk[0]),
        !closed.contains_key(walk[n]),
    ensures
        1 <= j <= n,
        closed.contains_key(walk[j - 1]),
        !closed.contains_key(walk[j]),
    decreases n,
{
    if closed.contains_key(walk[n - 1]) {
        n
    } else {
        lemma_first_outside(walk, closed, n - 1)
    }
}

/// A walk from the root to a state that is not settled passes an open state,
/// whose recorded cost is no more than the slides that the walk took to it.
proof fn lemma_walk_meets_open(
    initial: Puzzle,
    goal: Puzzle,
    closed: Map<Puzzle, (Puzzle, int)>,
    live: Map<Puzzle, (Puzzle, int)>,
    walk: Seq<Puzzle>,
    s: Puzzle,
) -> (j: int)
    requires
        closed.contains_key(initial),
        !closed.contains_key(goal),
        !closed.contains_key(s),
        optimal(initial, closed),
        complete_upto(closed, live, goal, initial, 4),
        connects(walk, initial, s),
    ensures
        1 <= j < walk.len(),
        live.contains_key(walk[j]),
        live[walk[j]].1 <= j,
{
    let j = lemma_first_outside(walk, closed, walk.len() - 1);
    let c = walk[j - 1];
    let n = walk[j];
    assert(slides(walk, j - 1));
    let d = choose|d: Direction| c.moved(d) == Some(n);
    assert(c.moved(d) is Some);
    assert(covered(closed, live, n, closed[c].1 + 1));
    lemma_walk_take(walk, initial, s, j - 1);
    assert(no_shorter(initial, c, closed[c].1));
    assert(connects(walk.take(j), initial, c));
    j
}

/// The state that leaves the open set next cannot be reached in fewer slides
/// than its record says, where the estimates are nearly consistent: a walk
/// of fewer slides would be shorter by two at least, and would pass an open
/// state that had to leave first.
proof fn lemma_popped_optimal<H: Heuristic>(
    initial: Puzzle,
    goal: Puzzle,
    closed: Map<Puzzle, (Puzzle, int)>,
    live: Map<Puzzle, (Puzzle, int)>,
    queue: Seq<OpenNode>,
    walk: Seq<Puzzle>,
)
    requires
        initial.wf(),
        closed.contains_key(initial),
        !closed.contains_key(goal),
        optimal(initial, closed),
        complete_upto(closed, live, goal, initial, 4),
        forall|s: Puzzle| #[trigger] live.contains_key(s) ==> !closed.contains_key(s),
        estimated::<H>(queue, goal),
        nearly_consistent::<H>(goal),
        sorted_by_f(queue),
        backed(queue, live),
        first_live(queue, live) < queue.len(),
        reachable_in(
            initial,
            queue[first_live(queue, live)].puzzle,
            queue[first_live(queue, live)].g as int,
        ),
        connects(walk, initial, queue[first_live(queue, live)].puzzle),
    ensures
        queue[first_live(queue, live)].g <= walk.len() - 1,
{
    let k = first_live(queue, live);
    let s = queue[k].puzzle;
    let g = queue[k].g as int;
    let last = walk.len() - 1;
    if last < g {
        let own = choose|own: Seq<Puzzle>| #[trigger] connects(own, initial, s) && own.len() == g + 1;
        lemma_walks_same_parity(own, walk, initial, s);
        assert(last <= g - 2);
        lemma_first_live_is(queue, live);
        assert(matches_live(queue[k], live));
        assert(live.contains_key(s));
        let j = lemma_walk_meets_open(initial, goal, closed, live, walk, s);
        let n = walk[j];
        let i = choose|i: int|
            0 <= i < queue.len() && #[trigger] queue[i].puzzle == n && queue[i].g == live[n].1;
        assert(matches_live(queue[i], live));
        assert(k <= i);
        assert(queue[k].f() <= queue[i].f());
        assert(queue[i].h == H::estimate(n, goal));
        assert(queue[k].h == H::estimate(s, goal));
        assert(all_proper(walk)) by {
            assert forall|x: int| 0 <= x < walk.len() implies (#[trigger] walk[x]).wf() by {
                lemma_walk_wf(walk, initial, s, x);
            }
        }
        assert(drop_within::<H>(goal, walk, j, last));
    }
}

/// Where nothing is open, every state that can be reached is settled.
proof fn lemma_closed_all(
    initial: Puzzle,
    goal: Puzzle,
    closed: Map<Puzzle, (Puzzle, int)>,
    live: Map<Puzzle, (Puzzle, int)>,
    walk: Seq<Puzzle>,
    n: int,
)
    requires
        closed.contains_key(initial),
        !closed.contains_key(goal),
        complete_upto(closed, live, goal, initial, 4),
        forall|p: Puzzle| !live.contains_key(p),
        walk.len() > 0,
        walk[0] == initial,
        is_walk(walk),
        0 <= n < walk.len(),
    ensures
        closed.contains_key(walk[n]),
    decreases n,
{
    if n > 0 {
        lemma_closed_all(initial, goal, closed, live, walk, n - 1);
        let c = walk[n - 1];
        assert(slides(walk, n - 1));
        let d = choose|d: Direction| c.moved(d) == Some(walk[n]);
        assert(c.moved(d) is Some);
        assert(covered(closed, live, walk[n], closed[c].1 + 1));
    }
}

/// A search that runs out of open states has settled all that can be reached.
proof fn lemma_exhausted<H: Heuristic>(
    initial: Puzzle,
    goal: Puzzle,
    closed: Map<Puzzle, (Puzzle, int)>,
    live: Map<Puzzle, (Puzzle, int)>,
    queue: Seq<OpenNode>,
)
    requires
        expanding::<H>(initial, goal, closed, live, queue, initial, 4),
        backed(queue, live),
        first_live(queue, live) >= queue.len(),
    ensures
        search_result::<H>(initial, goal, closed),
{
    reveal(expanding);
    lemma_first_live_is(queue, live);
    assert forall|p: Puzzle| !live.contains_key(p) by {
        if live.contains_key(p) {
            let i = choose|i: int|
                0 <= i < queue.len() && #[trigger] queue[i].puzzle == p && queue[i].g == live[p].1;
            assert(matches_live(queue[i], live));
        }
    }
    assert forall|s: Puzzle| #[trigger] reachable(initial, s) implies closed.contains_key(s) by {
        let w = choose|w: Seq<Puzzle>| #[trigger] connects(w, initial, s);
        lemma_closed_all(initial, goal, closed, live, w, w.len() - 1);
    }
    assert(initial != goal);
}

/// A search that settles the goal is finished.
proof fn lemma_found<H: Heuristic>(
    initial: Puzzle,
    goal: Puzzle,
    closed: Map<Puzzle, (Puzzle, int)>,
)
    requires
        tree_shaped(initial, closed),
        closed.contains_key(goal),
        nearly_consistent::<H>(goal) ==> optimal(initial, closed),
        initial == goal ==> closed == Map::<Puzzle, (Puzzle, int)>::empty().insert(
            initial,
            (initial, 0int),
        ),
    ensures
        search_result::<H>(initial, goal, closed),
{
    lemma_tree_walk(initial, closed, goal);
}

/// The first state to leave the open set is the initial state. Settling it
/// once more changes nothing, and where it is not the goal its expansion can begin.
proof fn lemma_settle_first<H: Heuristic>(
    initial: Puzzle,
    goal: Puzzle,
    closed: Map<Puzzle, (Puzzle, int)>,
    live: Map<Puzzle, (Puzzle, int)>,
    queue: Seq<OpenNode>,
)
    requires
        starting(initial, closed, live, queue),
    ensures
        first_live(queue, live) == 0,
        closed.insert(initial, (initial, 0int)) == closed,
        tree_shaped(initial, closed),
        optimal(initial, closed),
        initial != goal ==> expanding::<H>(
            initial,
            goal,
            closed,
            live.remove(initial),
            queue.skip(1),
            initial,
            0,
        ),
{
    reveal(expanding);
    assert(matches_live(queue[0], live));
    assert(closed.insert(initial, (initial, 0int)) =~= closed);
    assert(closed.dom() =~= Set::<Puzzle>::empty().insert(initial));
    assert(closed.dom().len() == 1);
    assert forall|s: Puzzle|
        #[trigger] closed.contains_key(s) implies no_shorter(initial, s, closed[s].1) by {}
    assert(queue.skip(1) =~= Seq::<OpenNode>::empty());
    assert(live.remove(initial) =~= Map::<Puzzle, (Puzzle, int)>::empty());
}

/// A record stays a tree when a proper state that it does not hold yet is
/// hung on one of its states.
proof fn lemma_tree_grows(
    initial: Puzzle,
    closed: Map<Puzzle, (Puzzle, int)>,
    s: Puzzle,
    parent: Puzzle,
    g: int,
)
    requires
        tree_shaped(initial, closed),
        s.wf(),
        !closed.contains_key(s),
        closed.contains_key(parent),
        g == closed[parent].1 + 1,
        parent.adjacent(s),
    ensures
        tree_shaped(initial, closed.insert(s, (parent, g))),
        closed.insert(s, (parent, g)).dom().len() == closed.dom().len() + 1,
{
    let after = closed.insert(s, (parent, g));
    assert(after.dom() =~= closed.dom().insert(s));
    assert forall|x: Puzzle| after.contains_key(x) && x != initial implies #[trigger] hangs(
        after,
        x,
    ) by {
        if x != s {
            assert(closed.contains_key(x));
            assert(hangs(closed, x));
        }
    }
    assert forall|x: Puzzle| #[trigger] after.contains_key(x) implies x.wf() && 0 <= after[x].1
        < after.dom().len() by {
        if x != s {
            assert(closed.contains_key(x));
        }
    }
}

/// The open states stay attached when one of them is settled.
proof fn lemma_live_shrinks(
    closed: Map<Puzzle, (Puzzle, int)>,
    live: Map<Puzzle, (Puzzle, int)>,
    s: Puzzle,
)
    requires
        live_attached(closed, live),
        live.contains_key(s),
    ensures
        live_attached(closed.insert(s, live[s]), live.remove(s)),
{
    let after = closed.insert(s, live[s]);
    let live2 = live.remove(s);
    assert forall|x: Puzzle| #[trigger] live2.contains_key(x) implies {
        &&& x.wf()
        &&& !after.contains_key(x)
        &&& after.contains_key(live2[x].0)
        &&& live2[x].1 == after[live2[x].0].1 + 1
        &&& live2[x].0.adjacent(x)
    } by {
        assert(live.contains_key(x));
    }
}

/// What was covered stays covered when an open state is settled, and the
/// state that was settled has had none of its successors dealt with yet.
proof fn lemma_cover_kept(
    closed: Map<Puzzle, (Puzzle, int)>,
    live: Map<Puzzle, (Puzzle, int)>,
    goal: Puzzle,
    root: Puzzle,
    s: Puzzle,
)
    requires
        complete_upto(closed, live, goal, root, 4),
        live.contains_key(s),
        !closed.contains_key(s),
    ensures
        complete_upto(closed.insert(s, live[s]), live.remove(s), goal, s, 0),
{
    let after = closed.insert(s, live[s]);
    let live2 = live.remove(s);
    assert forall|c: Puzzle, d: Direction|
        after.contains_key(c) && c != goal && (#[trigger] c.moved(d)) is Some && (c != s
            || d.index() < 0) implies covered(after, live2, c.moved(d)->0, after[c].1 + 1) by {
        assert(closed.contains_key(c));
        assert(d.index() < 4);
        assert(covered(closed, live, c.moved(d)->0, closed[c].1 + 1));
    }
}

/// The records that stay in the queue carry their estimates as before.
proof fn lemma_estimated_skip<H: Heuristic>(queue: Seq<OpenNode>, goal: Puzzle, k: int)
    requires
        estimated::<H>(queue, goal),
        0 <= k <= queue.len(),
    ensures
        estimated::<H>(queue.skip(k), goal),
{
    let queue2 = queue.skip(k);
    assert forall|i: int| 0 <= i < queue2.len() implies (#[trigger] queue2[i]).h == H::estimate(
        queue2[i].puzzle,
        goal,
    ) by {
        assert(queue2[i] == queue[i + k]);
    }
}

/// The costs stay least when the state that left the open set is settled.
proof fn lemma_optimal_grows<H: Heuristic>(
    initial: Puzzle,
    goal: Puzzle,
    closed: Map<Puzzle, (Puzzle, int)>,
    live: Map<Puzzle, (Puzzle, int)>,
    queue: Seq<OpenNode>,
)
    requires
        tree_shaped(initial, closed),
        !closed.contains_key(goal),
        optimal(initial, closed),
        complete_upto(closed, live, goal, initial, 4),
        live_attached(closed, live),
        estimated::<H>(queue, goal),
        nearly_consistent::<H>(goal),
        sorted_by_f(queue),
        backed(queue, live),
        first_live(queue, live) < queue.len(),
    ensures
        ({
            let s = queue[first_live(queue, live)].puzzle;
            optimal(initial, closed.insert(s, live[s]))
        }),
{
    let k = first_live(queue, live);
    let s = queue[k].puzzle;
    let after = closed.insert(s, live[s]);
    lemma_first_live_is(queue, live);
    assert(matches_live(queue[k], live));
    assert(live.contains_key(s));
    assert(initial.wf());
    assert(reachable_in(initial, s, queue[k].g as int)) by {
        let p = live[s].0;
        lemma_tree_walk(initial, closed, p);
        let w = choose|w: Seq<Puzzle>|
            #[trigger] connects(w, initial, p) && w.len() == closed[p].1 + 1;
        lemma_walk_push(w, initial, p, s);
        assert(connects(w.push(s), initial, s));
    }
    assert forall|x: Puzzle| #[trigger] after.contains_key(x) implies no_shorter(
        initial,
        x,
        after[x].1,
    ) by {
        if x == s {
            assert forall|walk: Seq<Puzzle>| #[trigger]
                connects(walk, initial, s) implies after[s].1 <= walk.len() - 1 by {
                lemma_popped_optimal::<H>(initial, goal, closed, live, queue, walk);
            }
        } else {
            assert(closed.contains_key(x));
        }
    }
}

/// Settling the state that left the open set keeps the record a tree, with
/// least costs where the estimates are nearly consistent; where that state is not
/// the goal, its expansion can begin.
proof fn lemma_settle<H: Heuristic>(
    initial: Puzzle,
    goal: Puzzle,
    closed: Map<Puzzle, (Puzzle, int)>,
    live: Map<Puzzle, (Puzzle, int)>,
    queue: Seq<OpenNode>,
)
    requires
        expanding::<H>(initial, goal, closed, live, queue, initial, 4),
        sorted_by_f(queue),
        backed(queue, live),
        first_live(queue, live) < queue.len(),
    ensures
        ({
            let k = first_live(queue, live);
            let s = queue[k].puzzle;
            let after = closed.insert(s, live[s]);
            &&& live.contains_key(s)
            &&& live[s].1 == queue[k].g
            &&& !closed.contains_key(s)
            &&& after.dom().len() == closed.dom().len() + 1
            &&& tree_shaped(initial, after)
            &&& nearly_consistent::<H>(goal) ==> optimal(initial, after)
            &&& s != goal ==> expanding::<H>(
                initial,
                goal,
                after,
                live.remove(s),
                queue.skip(k + 1),
                s,
                0,
            )
        }),
{
    reveal(expanding);
    let k = first_live(queue, live);
    let s = queue[k].puzzle;
    lemma_first_live_is(queue, live);
    assert(matches_live(queue[k], live));
    assert(live.contains_key(s));
    lemma_tree_grows(initial, closed, s, live[s].0, live[s].1);
    if nearly_consistent::<H>(goal) {
        lemma_optimal_grows::<H>(initial, goal, closed, live, queue);
    }
    lemma_live_shrinks(closed, live, s);
    lemma_cover_kept(closed, live, goal, initial, s);
    lemma_estimated_skip::<H>(queue, goal, k + 1);
}

/// A successor that is already settled needs nothing done.
proof fn lemma_skip<H: Heuristic>(
    initial: Puzzle,
    goal: Puzzle,
    closed: Map<Puzzle, (Puzzle, int)>,
    live: Map<Puzzle, (Puzzle, int)>,
    queue: Seq<OpenNode>,
    s: Puzzle,
    d: Direction,
)
    requires
        expanding::<H>(initial, goal, closed, live, queue, s, d.index()),
        s.moved(d) is Some ==> closed.contains_key(s.moved(d)->0),
    ensures
        expanding::<H>(initial, goal, closed, live, queue, s, d.index() + 1),
{
    reveal(expanding);
    assert forall|c: Puzzle, e: Direction|
        closed.contains_key(c) && c != goal && (#[trigger] c.moved(e)) is Some && (c != s
            || e.index() < d.index() + 1) implies covered(
        closed,
        live,
        c.moved(e)->0,
        closed[c].1 + 1,
    ) by {
        if c == s && e.index() == d.index() {
            assert(e == d);
        }
    }
}

/// The open states stay attached when a successor of a settled state is pushed.
proof fn lemma_live_grows(
    closed: Map<Puzzle, (Puzzle, int)>,
    live: Map<Puzzle, (Puzzle, int)>,
    node: OpenNode,
)
    requires
        live_attached(closed, live),
        node.puzzle.wf(),
        !closed.contains_key(node.puzzle),
        closed.contains_key(node.parent),
        node.g == closed[node.parent].1 + 1,
        node.parent.adjacent(node.puzzle),
    ensures
        live_attached(closed, live_after_push(live, node)),
{
    let live2 = live_after_push(live, node);
    assert forall|x: Puzzle| #[trigger] live2.contains_key(x) implies {
        &&& x.wf()
        &&& !closed.contains_key(x)
        &&& closed.contains_key(live2[x].0)
        &&& live2[x].1 == closed[live2[x].0].1 + 1
        &&& live2[x].0.adjacent(x)
    } by {
        if x != node.puzzle {
            assert(live.contains_key(x));
        } else if live.contains_key(x) {
        }
    }
}

/// What was covered stays covered after a push, and the state that was
/// pushed is covered at its cost.
proof fn lemma_cover_grows(
    closed: Map<Puzzle, (Puzzle, int)>,
    live: Map<Puzzle, (Puzzle, int)>,
    goal: Puzzle,
    s: Puzzle,
    d: Direction,
    node: OpenNode,
)
    requires
        complete_upto(closed, live, goal, s, d.index()),
        closed.contains_key(s),
        s.moved(d) == Some(node.puzzle),
        node.g == closed[s].1 + 1,
    ensures
        complete_upto(closed, live_after_push(live, node), goal, s, d.index() + 1),
{
    let live2 = live_after_push(live, node);
    assert forall|c: Puzzle, e: Direction|
        closed.contains_key(c) && c != goal && (#[trigger] c.moved(e)) is Some && (c != s
            || e.index() < d.index() + 1) implies covered(
        closed,
        live2,
        c.moved(e)->0,
        closed[c].1 + 1,
    ) by {
        if c == s && e.index() == d.index() {
            assert(e == d);
        } else {
            assert(covered(closed, live, c.moved(e)->0, closed[c].1 + 1));
        }
    }
}

/// A queue of records with their estimates stays one when such a record enters.
proof fn lemma_estimated_push<H: Heuristic>(queue: Seq<OpenNode>, goal: Puzzle, node: OpenNode)
    requires
        estimated::<H>(queue, goal),
        node.h == H::estimate(node.puzzle, goal),
    ensures
        estimated::<H>(queue_after_push(queue, node), goal),
{
    let queue2 = queue_after_push(queue, node);
    let pos = entry_point(queue, node.f());
    crate::open_set::lemma_entry_point_range(queue, node.f());
    assert forall|i: int| 0 <= i < queue2.len() implies (#[trigger] queue2[i]).h == H::estimate(
        queue2[i].puzzle,
        goal,
    ) by {
        if i < pos {
            assert(queue2[i] == queue[i]);
        } else if i > pos {
            assert(queue2[i] == queue[i - 1]);
        }
    }
}

/// A successor that is not settled goes into the open set, at one slide more
/// than the state it comes from.
proof fn lemma_relax<H: Heuristic>(
    initial: Puzzle,
    goal: Puzzle,
    closed: Map<Puzzle, (Puzzle, int)>,
    live: Map<Puzzle, (Puzzle, int)>,
    queue: Seq<OpenNode>,
    s: Puzzle,
    d: Direction,
    node: OpenNode,
)
    requires
        expanding::<H>(initial, goal, closed, live, queue, s, d.index()),
        closed.contains_key(s),
        s.moved(d) == Some(node.puzzle),
        !closed.contains_key(node.puzzle),
        node.parent == s,
        node.g == closed[s].1 + 1,
        node.h == H::estimate(node.puzzle, goal),
    ensures
        expanding::<H>(
            initial,
            goal,
            closed,
            live_after_push(live, node),
            queue_after_push(queue, node),
            s,
            d.index() + 1,
        ),
{
    reveal(expanding);
    assert(s.wf());
    s.lemma_moved_wf(d);
    assert(s.adjacent(node.puzzle));
    lemma_live_grows(closed, live, node);
    lemma_cover_grows(closed, live, goal, s, d, node);
    lemma_estimated_push::<H>(queue, goal, node);
}

/// Once all four directions are dealt with, the next state can leave the open set.
proof fn lemma_expanded<H: Heuristic>(
    initial: Puzzle,
    goal: Puzzle,
    closed: Map<Puzzle, (Puzzle, int)>,
    live: Map<Puzzle, (Puzzle, int)>,
    queue: Seq<OpenNode>,
    s: Puzzle,
)
    requires
        expanding::<H>(initial, goal, closed, live, queue, s, 4),
    ensures
        expanding::<H>(initial, goal, closed, live, queue, initial, 4),
{
    reveal(expanding);
    assert forall|c: Puzzle, d: Direction|
        closed.contains_key(c) && c != goal && (#[trigger] c.moved(d)) is Some && (c != initial
            || d.index() < 4) implies covered(closed, live, c.moved(d)->0, closed[c].1 + 1) by {
        assert(d.index() < 4);
    }
}

/// While a state is expanded, its cost is less than the number of boards.
proof fn lemma_cost_bounded<H: Heuristic>(
    initial: Puzzle,
    goal: Puzzle,
    closed: Map<Puzzle, (Puzzle, int)>,
    live: Map<Puzzle, (Puzzle, int)>,
    queue: Seq<OpenNode>,
    s: Puzzle,
    upto: int,
)
    requires
        expanding::<H>(initial, goal, closed, live, queue, s, upto),
        closed.contains_key(s),
    ensures
        0 <= closed[s].1 < state_bound(),
{
    reveal(expanding);
    lemma_proper_boards_bounded(closed.dom());
}

/// Deals with the successor of the settled state `current` in direction `d`:
/// where there is one and it is not settled, it goes into the open set at
/// cost `current_g + 1`. Returns the successor, if there is one, and whether
/// it went into the open set.
fn relax_one<S: SearchTree, H: Heuristic>(
    closed_set: &S,
    open_set: &mut OpenSet,
    h_estimator: &mut H,
    current: &Puzzle,
    current_g: i32,
    goal: &Puzzle,
    d: Direction,
    Ghost(initial): Ghost<Puzzle>,
) -> (tried: Option<(Puzzle, bool)>)
    requires
        closed_set.wf(),
        old(open_set).wf(),
        expanding::<H>(
            initial,
            *goal,
            closed_set.entries(),
            old(open_set).live(),
            old(open_set).queue(),
            *current,
            d.index(),
        ),
        closed_set.entries().contains_key(*current),
        closed_set.entries()[*current].1 == current_g,
        current_g < state_bound(),
        old(open_set).pushed() < u64::MAX,
    ensures
        final(open_set).wf(),
        final(open_set).pushed() <= old(open_set).pushed() + 1,
        expanding::<H>(
            initial,
            *goal,
            closed_set.entries(),
            final(open_set).live(),
            final(open_set).queue(),
            *current,
            d.index() + 1,
        ),
        (Frontier {
            closed: closed_set.entries(),
            live: final(open_set).live(),
            queue: final(open_set).queue(),
        }) == relax::<H>(
            (Frontier {
                closed: closed_set.entries(),
                live: old(open_set).live(),
                queue: old(open_set).queue(),
            }),
            *goal,
            *current,
            d,
        ),
        attempt(closed_set.entries(), *current, d) == match tried {
            Some((next, pushed)) => seq![(*current, next, pushed)],
            None => Seq::empty(),
        },
{
    let ghost closed = closed_set.entries();
    match current.move_zero(d) {
        Some(next) => {
            if closed_set.get(&next).is_some() {
                proof {
                    lemma_skip::<H>(
                        initial,
                        *goal,
                        closed,
                        open_set.live(),
                        open_set.queue(),
                        *current,
                        d,
                    );
                }
                Some((next, false))
            } else {
                let g = current_g + 1;
                let h = h_estimator.estimate_h(&next, goal);
                let node = OpenNode { puzzle: next, parent: *current, g, h };
                proof {
                    lemma_relax::<H>(
                        initial,
                        *goal,
                        closed,
                        open_set.live(),
                        open_set.queue(),
                        *current,
                        d,
                        node,
                    );
                }
                open_set.push(node);
                Some((next, true))
            }
        },
        None => {
            proof {
                lemma_skip::<H>(
                    initial,
                    *goal,
                    closed,
                    open_set.live(),
                    open_set.queue(),
                    *current,
                    d,
                );
            }
            None
        },
    }
}

/// Deals with the four successors of the state `current`, which was just
/// settled at cost `current_g`: a successor that is settled already is passed
/// over, every other goes into the open set at cost `current_g + 1`. The
/// record is then told of each successor that was tried.
fn expand<S: SearchTree, H: Heuristic>(
    closed_set: &mut S,
    open_set: &mut OpenSet,
    h_estimator: &mut H,
    current: &Puzzle,
    current_g: i32,
    goal: &Puzzle,
    Ghost(initial): Ghost<Puzzle>,
)
    requires
        old(closed_set).wf(),
        old(open_set).wf(),
        expanding::<H>(
            initial,
            *goal,
            old(closed_set).entries(),
            old(open_set).live(),
            old(open_set).queue(),
            *current,
            0,
        ),
        old(closed_set).entries().contains_key(*current),
        old(closed_set).entries()[*current].1 == current_g,
        old(open_set).pushed() + 4 < u64::MAX,
    ensures
        final(closed_set).wf(),
        final(closed_set).target() == old(closed_set).target(),
        final(closed_set).entries() == old(closed_set).entries(),
        final(open_set).wf(),
        final(open_set).pushed() <= old(open_set).pushed() + 4,
        expanding::<H>(
            initial,
            *goal,
            final(closed_set).entries(),
            final(open_set).live(),
            final(open_set).queue(),
            initial,
            4,
        ),
        (Frontier {
            closed: final(closed_set).entries(),
            live: final(open_set).live(),
            queue: final(open_set).queue(),
        }) == relax_upto::<H>(
            (Frontier {
                closed: old(closed_set).entries(),
                live: old(open_set).live(),
                queue: old(open_set).queue(),
            }),
            *goal,
            *current,
            4,
        ),
        final(closed_set).told() == old(closed_set).told() + attempts(
            old(closed_set).entries(),
            *current,
            4,
        ),
{
    let directions = Direction::all();
    let ghost closed = closed_set.entries();
    let ghost first = Frontier { closed, live: open_set.live(), queue: open_set.queue() };
    let mut tried: Vec<(Puzzle, bool)> = Vec::new();
    proof {
        lemma_cost_bounded::<H>(
            initial,
            *goal,
            closed,
            open_set.live(),
            open_set.queue(),
            *current,
            0,
        );
        assert(tellings(*current, tried@) =~= Seq::<(Puzzle, Puzzle, bool)>::empty());
        lemma_relax_upto::<H>(first, *goal, *current, Direction::Up);
        lemma_attempts(closed, *current, Direction::Up);
    }
    let mut i: usize = 0;
    while i < 4
        invariant
            i <= 4,
            directions@ == Direction::order(),
            closed_set.wf(),
            closed_set.entries() == closed,
            closed_set.target() == old(closed_set).target(),
            closed.contains_key(*current),
            closed[*current].1 == current_g,
            current_g < state_bound(),
            open_set.wf(),
            open_set.pushed() <= old(open_set).pushed() + i,
            old(open_set).pushed() + 4 < u64::MAX,
            expanding::<H>(
                initial,
                *goal,
                closed,
                open_set.live(),
                open_set.queue(),
                *current,
                i as int,
            ),
            (Frontier { closed, live: open_set.live(), queue: open_set.queue() }) == relax_upto::<
                H,
            >(first, *goal, *current, i as int),
            closed_set.told() == old(closed_set).told(),
            tellings(*current, tried@) == attempts(closed, *current, i as int),
        decreases 4 - i,
    {
        let d = directions[i];
        assert(d.index() == i);
        proof {
            lemma_relax_upto::<H>(first, *goal, *current, d);
            lemma_attempts(closed, *current, d);
        }
        match relax_one::<S, H>(
            closed_set,
            open_set,
            h_estimator,
            current,
            current_g,
            goal,
            d,
            Ghost(initial),
        ) {
            Some(one) => {
                proof {
                    assert(tellings(*current, tried@.push(one)) =~= tellings(*current, tried@)
                        + seq![(*current, one.0, one.1)]);
                }
                tried.push(one);
            },
            None => {
                proof {
                    assert(tellings(*current, tried@) + Seq::<(Puzzle, Puzzle, bool)>::empty()
                        =~= tellings(*current, tried@));
                }
            },
        }
        i += 1;
    }
    proof {
        lemma_expanded::<H>(initial, *goal, closed, open_set.live(), open_set.queue(), *current);
    }
    let ghost last = Frontier { closed, live: open_set.live(), queue: open_set.queue() };
    let mut j: usize = 0;
    proof {
        assert(tellings(*current, tried@.take(0)) =~= Seq::<(Puzzle, Puzzle, bool)>::empty());
        assert(old(closed_set).told() + Seq::<(Puzzle, Puzzle, bool)>::empty() =~= old(
            closed_set,
        ).told());
    }
    while j < tried.len()
        invariant
            j <= tried@.len(),
            closed_set.wf(),
            closed_set.target() == old(closed_set).target(),
            closed_set.entries() == closed,
            open_set.wf(),
            last == (Frontier { closed, live: open_set.live(), queue: open_set.queue() }),
            closed_set.told() == old(closed_set).told() + tellings(
                *current,
                tried@.take(j as int),
            ),
        decreases tried.len() - j,
    {
        let pushed = tried[j].1;
        proof {
            assert(tried@.take(j + 1) =~= tried@.take(j as int).push(tried@[j as int]));
            assert(old(closed_set).told() + tellings(*current, tried@.take(j + 1)) =~= (old(
                closed_set,
            ).told() + tellings(*current, tried@.take(j as int))).push(
                (*current, tried@[j as int].0, tried@[j as int].1),
            ));
        }
        closed_set.step_callback(current, (&tried[j].0, pushed), open_set);
        j += 1;
    }
    proof {
        assert(tried@.take(tried@.len() as int) =~= tried@);
    }
}

/// What the record is told of the successors of `current` that were tried.
pub open spec fn tellings(current: Puzzle, tried: Seq<(Puzzle, bool)>) -> Seq<
    (Puzzle, Puzzle, bool),
> {
    tried.map_values(|a: (Puzzle, bool)| (current, a.0, a.1))
}

/// The state of a search between two rounds: before the first round, or
/// with all that is settled expanded.
#[verifier::opaque]
spec fn searching<H: Heuristic>(
    initial: Puzzle,
    goal: Puzzle,
    closed: Map<Puzzle, (Puzzle, int)>,
    live: Map<Puzzle, (Puzzle, int)>,
    queue: Seq<OpenNode>,
) -> bool {
    starting(initial, closed, live, queue) || expanding::<H>(
        initial,
        goal,
        closed,
        live,
        queue,
        initial,
        4,
    )
}

/// The search has ended with this record.
#[verifier::opaque]
spec fn ended<H: Heuristic>(initial: Puzzle, goal: Puzzle, closed: Map<Puzzle, (Puzzle, int)>) -> bool {
    search_result::<H>(initial, goal, closed)
}

/// The rounds that a search can still make at most.
spec fn rounds_left(
    initial: Puzzle,
    closed: Map<Puzzle, (Puzzle, int)>,
    live: Map<Puzzle, (Puzzle, int)>,
) -> int {
    state_bound() - closed.dom().len() + (if live.contains_key(initial) {
        1int
    } else {
        0int
    })
}

/// A search starts in a state between rounds, with as many rounds left as
/// there are states at most.
proof fn lemma_round_zero<H: Heuristic>(initial: Puzzle, goal: Puzzle)
    requires
        initial.wf(),
    ensures
        searching::<H>(initial, goal, start(initial).closed, start(initial).live, start(initial).queue),
        rounds_left(initial, start(initial).closed, start(initial).live) == state_bound(),
        start(initial).closed.dom().finite(),
{
    reveal(searching);
    let closed = start(initial).closed;
    assert(closed.dom() =~= Set::<Puzzle>::empty().insert(initial));
}

/// What the next round of a search does: where no open state is left it
/// ends the search; else it settles the next open state, which ends the
/// search where that is the goal, and lets its expansion begin where not.
proof fn lemma_round<H: Heuristic>(
    initial: Puzzle,
    goal: Puzzle,
    closed: Map<Puzzle, (Puzzle, int)>,
    live: Map<Puzzle, (Puzzle, int)>,
    queue: Seq<OpenNode>,
)
    requires
        searching::<H>(initial, goal, closed, live, queue),
        sorted_by_f(queue),
        backed(queue, live),
    ensures
        closed.dom().finite(),
        0 <= rounds_left(initial, closed, live),
        first_live(queue, live) >= queue.len() ==> ended::<H>(initial, goal, closed),
        first_live(queue, live) < queue.len() ==> ({
            let after = settle(Frontier { closed, live, queue });
            let s = queue[first_live(queue, live)].puzzle;
            &&& live.contains_key(s)
            &&& live[s].1 == queue[first_live(queue, live)].g
            &&& after.closed.contains_key(s)
            &&& after.closed[s].1 == queue[first_live(queue, live)].g
            &&& after.closed.dom().finite()
            &&& 1 <= rounds_left(initial, closed, live)
            &&& state_bound() - after.closed.dom().len() == rounds_left(initial, closed, live) - 1
            &&& s == goal ==> ended::<H>(initial, goal, after.closed)
            &&& s != goal ==> expanding::<H>(
                initial,
                goal,
                after.closed,
                after.live,
                after.queue,
                s,
                0,
            )
        }),
{
    reveal(ended);
    reveal(expanding);
    reveal(searching);
    let k = first_live(queue, live);
    if starting(initial, closed, live, queue) {
        lemma_settle_first::<H>(initial, goal, closed, live, queue);
        assert(closed.dom() =~= Set::<Puzzle>::empty().insert(initial));
        lemma_found::<H>(initial, initial, closed);
    } else {
        lemma_proper_boards_bounded(closed.dom());
        if k >= queue.len() {
            lemma_exhausted::<H>(initial, goal, closed, live, queue);
        } else {
            lemma_settle::<H>(initial, goal, closed, live, queue);
            let s = queue[k].puzzle;
            let after = closed.insert(s, live[s]);
            lemma_proper_boards_bounded(after.dom());
            assert(!live.contains_key(initial));
            if s == goal {
                lemma_found::<H>(initial, goal, after);
            }
        }
    }
}

/// With the expansion of a state done the search is between rounds again,
/// and the initial state is not open.
proof fn lemma_round_done<H: Heuristic>(
    initial: Puzzle,
    goal: Puzzle,
    closed: Map<Puzzle, (Puzzle, int)>,
    live: Map<Puzzle, (Puzzle, int)>,
    queue: Seq<OpenNode>,
)
    requires
        expanding::<H>(initial, goal, closed, live, queue, initial, 4),
    ensures
        searching::<H>(initial, goal, closed, live, queue),
        rounds_left(initial, closed, live) == state_bound() - closed.dom().len(),
{
    reveal(expanding);
    reveal(searching);
}

/// Searches for `goal` from `initial`: best-first, by moves made plus the
/// estimate of `H`, and of equals the earliest found first.
///
/// The search settles one state after another in `closed_set` until it
/// settles the goal or no state is left to settle. The record is then a tree
/// rooted at `initial`. It holds the goal exactly if the goal can be reached;
/// where it does not, it holds every state that can be reached. Where the
/// estimates of `H` are nearly consistent, every recorded cost is the least
/// number of slides that lead to the state.
///
/// Round by round the record is what `outcome` says, and it is told, after
/// the four successors of a state are dealt with, of each that was tried:
/// what `narration` says.
pub fn solve_from_initial<S: SearchTree, H: Heuristic>(
    initial: Puzzle,
    goal: Puzzle,
    closed_set: &mut S,
)
    requires
        old(closed_set).wf(),
        old(closed_set).entries() == Map::<Puzzle, (Puzzle, int)>::empty(),
        initial.wf(),
    ensures
        final(closed_set).wf(),
        final(closed_set).target() == old(closed_set).target(),
        search_result::<H>(initial, goal, final(closed_set).entries()),
        final(closed_set).entries() == outcome::<H>(initial, goal),
        final(closed_set).told() == old(closed_set).told() + narration::<H>(initial, goal),
{
    let mut open_set = OpenSet::new();
    let mut h_estimator = H::new();
    let ghost heard = closed_set.told();
    let ghost mut said: Seq<(Puzzle, Puzzle, bool)> = Seq::empty();
    let first = OpenNode { puzzle: initial, parent: initial, g: 0, h: 0 };
    open_set.push(first);
    closed_set.set(initial, (initial, 0));
    proof {
        assert(entry_point(Seq::<OpenNode>::empty(), first.f()) == 0);
        assert(open_set.queue() =~= seq![first]);
        assert(live_after_push(Map::<Puzzle, (Puzzle, int)>::empty(), first) == closed_set.entries());
        lemma_round_zero::<H>(initial, goal);
        assert(heard + said =~= heard);
        assert(said + narration::<H>(initial, goal) =~= narration::<H>(initial, goal));
    }
    loop
        invariant_except_break
            open_set.wf(),
            open_set.pushed() + (if open_set.live().contains_key(initial) {
                4int
            } else {
                0int
            }) <= 4 * closed_set.entries().dom().len() + 1,
            searching::<H>(
                initial,
                goal,
                closed_set.entries(),
                open_set.live(),
                open_set.queue(),
            ),
            closed_set.told() == heard + said,
            run::<H>(
                goal,
                (Frontier {
                    closed: closed_set.entries(),
                    live: open_set.live(),
                    queue: open_set.queue(),
                }),
                rounds_left(initial, closed_set.entries(), open_set.live()) as nat,
            ).closed == outcome::<H>(initial, goal),
            said + run_told::<H>(
                goal,
                (Frontier {
                    closed: closed_set.entries(),
                    live: open_set.live(),
                    queue: open_set.queue(),
                }),
                rounds_left(initial, closed_set.entries(), open_set.live()) as nat,
            ) == narration::<H>(initial, goal),
        invariant
            closed_set.wf(),
            closed_set.target() == old(closed_set).target(),
        ensures
            ended::<H>(initial, goal, closed_set.entries()),
            closed_set.entries() == outcome::<H>(initial, goal),
            closed_set.told() == heard + narration::<H>(initial, goal),
        decreases rounds_left(initial, closed_set.entries(), open_set.live()),
    {
        let ghost before = Frontier {
            closed: closed_set.entries(),
            live: open_set.live(),
            queue: open_set.queue(),
        };
        let ghost fuel = rounds_left(initial, before.closed, before.live) as nat;
        proof {
            open_set.lemma_wf();
            lemma_round::<H>(initial, goal, before.closed, before.live, before.queue);
            if fuel >= 1 {
                lemma_run::<H>(goal, before, fuel);
                lemma_run_told::<H>(goal, before, fuel);
            } else {
                reveal_with_fuel(run, 1);
                reveal_with_fuel(run_told, 1);
            }
            assert(said + Seq::<(Puzzle, Puzzle, bool)>::empty() =~= said);
        }
        let current = match open_set.pop() {
            Some(node) => node,
            None => {
                break ;
            },
        };
        closed_set.set(current.puzzle, (current.parent, current.g));
        proof {
            assert((Frontier {
                closed: closed_set.entries(),
                live: open_set.live(),
                queue: open_set.queue(),
            }) == settle(before));
        }
        if current.puzzle == goal {
            break ;
        }
        let current_g = closed_set.get(&current.puzzle).unwrap().1;
        let ghost settled = closed_set.entries();
        expand::<S, H>(
            closed_set,
            &mut open_set,
            &mut h_estimator,
            &current.puzzle,
            current_g,
            &goal,
            Ghost(initial),
        );
        proof {
            lemma_round_done::<H>(
                initial,
                goal,
                closed_set.entries(),
                open_set.live(),
                open_set.queue(),
            );
            let more = attempts(settled, current.puzzle, 4);
            let next = Frontier {
                closed: closed_set.entries(),
                live: open_set.live(),
                queue: open_set.queue(),
            };
            assert(heard + said + more =~= heard + (said + more));
            assert(said + (more + run_told::<H>(goal, next, (fuel - 1) as nat)) =~= (said + more)
                + run_told::<H>(goal, next, (fuel - 1) as nat));
            said = said + more;
        }
    }
    proof {
        reveal(ended);
    }
}

} // verus!
