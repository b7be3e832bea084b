use crate::graph::{
    connects, is_walk, lemma_walk_push, lemma_walk_start, lemma_walk_take, no_shorter, reachable,
    reachable_in, slides,
};
use crate::puzzle::{Direction, Puzzle};
use crate::search::{lemma_proper_boards_bounded, state_bound};
use std::collections::HashMap;
use std::collections::VecDeque;
use vstd::prelude::*;

verus! {

/// The step recorded for `s` leads to the goal from level 1, and from any
/// other level to a state with a step of its own, one level nearer.
pub open spec fn leads(
    steps: Map<Puzzle, Direction>,
    level: Map<Puzzle, nat>,
    goal: Puzzle,
    s: Puzzle,
) -> bool {
    &&& s.wf()
    &&& level.contains_key(s)
    &&& s.moved(steps[s]) is Some
    &&& {
        let t = s.moved(steps[s])->0;
        if t == goal {
            level[s] == 1
        } else {
            steps.contains_key(t) && level[t] + 1 == level[s]
        }
    }
}

/// The states from `s` on as the steps lead: to the goal, or as far as
/// `fuel` steps go.
pub open spec fn route(steps: Map<Puzzle, Direction>, goal: Puzzle, s: Puzzle, fuel: nat) -> Seq<
    Puzzle,
>
    decreases fuel,
{
    if fuel == 0 || !steps.contains_key(s) || s.moved(steps[s]) is None {
        seq![s]
    } else {
        let t = s.moved(steps[s])->0;
        if t == goal {
            seq![s, goal]
        } else {
            seq![s] + route(steps, goal, t, (fuel - 1) as nat)
        }
    }
}

/// Every successor of `c` has a step.
pub open spec fn settled(steps: Map<Puzzle, Direction>, c: Puzzle) -> bool {
    forall|d: Direction| (#[trigger] c.moved(d)) is Some ==> steps.contains_key(c.moved(d)->0)
}

/// Where steps lead, the route of a state with a step is a walk from it to
/// the goal, of as many slides as the level of the state.
pub proof fn lemma_route(
    steps: Map<Puzzle, Direction>,
    level: Map<Puzzle, nat>,
    goal: Puzzle,
    s: Puzzle,
)
    requires
        forall|p: Puzzle| steps.contains_key(p) ==> #[trigger] leads(steps, level, goal, p),
        steps.contains_key(s),
    ensures
        connects(route(steps, goal, s, level[s]), s, goal),
        route(steps, goal, s, level[s]).len() == level[s] + 1,
    decreases level[s],
{
    assert(leads(steps, level, goal, s));
    let t = s.moved(steps[s])->0;
    assert(s.adjacent(t));
    if t == goal {
        let r = seq![s, goal];
        assert forall|i: int| 0 <= i < r.len() - 1 implies #[trigger] slides(r, i) by {}
    } else {
        lemma_route(steps, level, goal, t);
        let rest = route(steps, goal, t, level[t]);
        let r = seq![s] + rest;
        assert(route(steps, goal, s, level[s]) == r);
        assert forall|i: int| 0 <= i < r.len() - 1 implies #[trigger] slides(r, i) by {
            if i > 0 {
                assert(slides(rest, i - 1));
                assert(r[i] == rest[i - 1]);
                assert(r[i + 1] == rest[i]);
            } else {
                assert(r[1] == rest[0]);
            }
        }
        assert(r.last() == rest.last());
    }
}

/// In the table every state stands under its own key.
pub open spec fn keyed(table: Map<u128, (Puzzle, Direction)>) -> bool {
    forall|k: u128| #[trigger] table.contains_key(k) ==> table[k].0.key_of() == k
}

/// The steps that the table holds.
pub open spec fn steps_in(table: Map<u128, (Puzzle, Direction)>) -> Map<Puzzle, Direction> {
    Map::new(
        |p: Puzzle| table.contains_key(p.key_of()) && table[p.key_of()].0 == p,
        |p: Puzzle| table[p.key_of()].1,
    )
}

/// A new state in the table is a new step, and no other step changes.
proof fn lemma_table_insert(table: Map<u128, (Puzzle, Direction)>, p: Puzzle, d: Direction)
    requires
        keyed(table),
    ensures
        keyed(table.insert(p.key_of(), (p, d))),
        steps_in(table.insert(p.key_of(), (p, d))) == steps_in(table).insert(p, d),
        steps_in(table).contains_key(p) <==> table.contains_key(p.key_of()),
{
    let after = table.insert(p.key_of(), (p, d));
    if table.contains_key(p.key_of()) {
        table[p.key_of()].0.lemma_key_injective(p);
    }
    assert forall|q: Puzzle|
        #[trigger] steps_in(after).dom().contains(q) == steps_in(table).insert(p, d).dom().contains(
            q,
        ) && (steps_in(after).contains_key(q) ==> steps_in(after)[q] == steps_in(table).insert(
            p,
            d,
        )[q]) by {
        if q.key_of() == p.key_of() {
            q.lemma_key_injective(p);
        }
    }
    assert(steps_in(after) =~= steps_in(table).insert(p, d));
}

/// The route of a state with a step is the state, followed by the goal where
/// the step leads there, and else by the route of the state that the step
/// leads to, which is one level nearer.
proof fn lemma_route_step(
    steps: Map<Puzzle, Direction>,
    level: Map<Puzzle, nat>,
    goal: Puzzle,
    s: Puzzle,
)
    requires
        steps.contains_key(s),
        leads(steps, level, goal, s),
    ensures
        s.moved(steps[s]) is Some,
        ({
            let t = s.moved(steps[s])->0;
            &&& route(steps, goal, s, level[s]) == if t == goal {
                seq![s, goal]
            } else {
                seq![s] + route(steps, goal, t, level[t])
            }
            &&& t != goal ==> steps.contains_key(t) && level[t] < level[s]
        }),
{
}

/// For every state from which the goal can be reached, the slide to make next.
pub struct SolutionMap {
    goal: Puzzle,
    steps: HashMap<u128, (Puzzle, Direction)>,
    level: Ghost<Map<Puzzle, nat>>,
}

impl SolutionMap {
    /// The goal that the steps lead to.
    pub closed spec fn target(&self) -> Puzzle {
        self.goal
    }

    /// The direction to slide in, for each state that has one.
    pub closed spec fn steps_of(&self) -> Map<Puzzle, Direction> {
        steps_in(self.steps@)
    }

    /// The number of steps that lead from each state to the goal.
    pub closed spec fn level_of(&self) -> Map<Puzzle, nat> {
        self.level@
    }

    /// Every recorded step leads towards the goal.
    pub closed spec fn wf(&self) -> bool {
        &&& keyed(self.steps@)
        &&& forall|p: Puzzle|
            self.steps_of().contains_key(p) ==> #[trigger] leads(
                self.steps_of(),
                self.level@,
                self.goal,
                p,
            )
        &&& forall|p: Puzzle|
            self.steps_of().contains_key(p) && p != self.goal ==> #[trigger] least(
                self.goal,
                self.level@,
                p,
            )
    }

    /// What the representation guarantees.
    pub proof fn lemma_wf(&self)
        requires
            self.wf(),
        ensures
            forall|p: Puzzle|
                self.steps_of().contains_key(p) ==> #[trigger] leads(
                    self.steps_of(),
                    self.level_of(),
                    self.target(),
                    p,
                ),
            forall|p: Puzzle|
                self.steps_of().contains_key(p) && p != self.target() ==> #[trigger] least(
                    self.target(),
                    self.level_of(),
                    p,
                ),
    {
    }

    /// The map for `goal`: sweeps outwards from the goal, level by level,
    /// and gives every state that it meets the slide back to the state it
    /// was met from, which is the first slide of a shortest way to the goal.
    /// The goal gets a step too, from one of its successors.
    pub fn new(goal: Puzzle) -> (m: SolutionMap)
        requires
            goal.wf(),
        ensures
            m.wf(),
            m.target() == goal,
            forall|s: Puzzle| #[trigger] m.steps_of().contains_key(s) ==> reachable(goal, s),
            forall|s: Puzzle| #[trigger] reachable(goal, s) ==> m.steps_of().contains_key(s),
    {
        broadcast use vstd::std_specs::hash::group_hash_axioms;

        let mut queue: VecDeque<(Puzzle, i32)> = VecDeque::new();
        let mut steps: HashMap<u128, (Puzzle, Direction)> = HashMap::new();
        let ghost mut level: Map<Puzzle, nat> = Map::empty();
        queue.push_back((goal, 0));
        proof {
            lemma_walk_start(goal);
            assert(steps_in(steps@).dom() =~= Set::<Puzzle>::empty());
            assert(queue@ =~= seq![(goal, 0i32)]);
            assert(queued(goal, steps_in(steps@), level, queue@[0]));
            assert(ordered(queue@, 0));
        }
        loop
            invariant
                keyed(steps@),
                sweeping(goal, steps_in(steps@), level, queue@),
            ensures
                queue@.len() == 0,
            decreases 2 * (state_bound() - steps_in(steps@).dom().len()) + queue@.len(),
        {
            proof {
                assert forall|p: Puzzle| #[trigger] steps_in(steps@).dom().contains(p) implies p.wf() by {
                    assert(leads(steps_in(steps@), level, goal, p));
                }
                lemma_proper_boards_bounded(steps_in(steps@).dom());
            }
            let ghost queue0 = queue@;
            let ghost count0 = steps_in(steps@).dom().len();
            let (current, step) = match queue.pop_front() {
                Some(item) => item,
                None => {
                    break ;
                },
            };
            proof {
                lemma_sweep_take(goal, steps_in(steps@), level, queue0);
            }
            let directions = Direction::all();
            let mut i: usize = 0;
            while i < 4
                invariant
                    i <= 4,
                    directions@ == Direction::order(),
                    keyed(steps@),
                    looking(goal, steps_in(steps@), level, queue@, (current, step), i as int),
                    steps_in(steps@).dom().len() <= state_bound(),
                    steps_in(steps@).dom().len() + queue0.len() == count0 + queue@.len() + 1,
                    count0 <= steps_in(steps@).dom().len(),
                decreases 4 - i,
            {
                let d = directions[i];
                assert(d.index() == i);
                let ghost view = steps_in(steps@);
                match current.move_zero(d) {
                    Some(next) => {
                        let key = next.key();
                        proof {
                            lemma_table_insert(steps@, next, d.opposite());
                        }
                        if !steps.contains_key(&key) {
                            proof {
                                lemma_sweep_insert(goal, view, level, queue@, (current, step), d);
                                lemma_steps_grow(goal, view, level, queue@, (current, step), d);
                                level = level.insert(next, (step + 1) as nat);
                            }
                            steps.insert(key, (next, d.reverse()));
                            queue.push_back((next, step + 1));
                        } else {
                            proof {
                                lemma_sweep_skip(goal, view, level, queue@, (current, step), d);
                            }
                        }
                    },
                    None => {
                        proof {
                            lemma_sweep_skip(goal, view, level, queue@, (current, step), d);
                        }
                    },
                }
                i += 1;
            }
            proof {
                lemma_sweep_done(goal, steps_in(steps@), level, queue@, (current, step));
            }
        }
        let m = SolutionMap { goal, steps, level: Ghost(level) };
        proof {
            assert(queue@ =~= Seq::<(Puzzle, i32)>::empty());
            assert forall|s: Puzzle| #[trigger] reachable(goal, s) implies m.steps_of().contains_key(
                s,
            ) by {
                let walk = choose|walk: Seq<Puzzle>| #[trigger] connects(walk, goal, s);
                if walk.len() > 1 {
                    lemma_sweep_complete(goal, m.steps_of(), level, walk, walk.len() - 1);
                } else {
                    // The goal itself: a slide away and back leads to it.
                    goal.lemma_wf_blank();
                    let d = if goal.blank() >= 3 {
                        Direction::Up
                    } else {
                        Direction::Down
                    };
                    assert(goal.moved(d) is Some);
                    let n = goal.moved(d)->0;
                    goal.lemma_move_reverse(d);
                    let there = seq![goal, n, goal];
                    assert(goal.adjacent(n));
                    assert(n.adjacent(goal));
                    assert forall|k: int| 0 <= k < there.len() - 1 implies #[trigger] slides(
                        there,
                        k,
                    ) by {}
                    lemma_sweep_complete(goal, m.steps_of(), level, there, 2);
                }
            }
        }
        m
    }

    /// The goal that the steps lead to.
    pub fn goal(&self) -> (g: &Puzzle)
        ensures
            *g == self.target(),
    {
        &self.goal
    }

    /// The states from `current` to the goal as the steps lead: a walk of
    /// as few slides as lead from the goal to `current`. From the goal itself
    /// the steps lead out and back. Nothing is returned where `current` has
    /// no step.
    pub fn reconstruct_path(&self, current: Puzzle) -> (path: Vec<Puzzle>)
        requires
            self.wf(),
        ensures
            path@ == if self.steps_of().contains_key(current) {
                route(self.steps_of(), self.target(), current, self.level_of()[current])
            } else {
                Seq::empty()
            },
            self.steps_of().contains_key(current) ==> connects(path@, current, self.target())
                && path@.len() == self.level_of()[current] + 1,
            self.steps_of().contains_key(current) && current != self.target() ==> no_shorter(
                self.target(),
                current,
                path@.len() - 1,
            ),
    {
        broadcast use vstd::std_specs::hash::group_hash_axioms;

        proof {
            if self.steps_of().contains_key(current) {
                self.lemma_wf();
                lemma_route(self.steps_of(), self.level_of(), self.target(), current);
                if current != self.target() {
                    assert(least(self.target(), self.level_of(), current));
                }
            }
        }
        let mut path: Vec<Puzzle> = Vec::new();
        let mut current_state = current;
        let ghost steps = self.steps_of();
        let ghost level = self.level@;
        let first = match self.steps.get(&current_state.key()) {
            Some(entry) => Some(entry.1),
            None => None,
        };
        proof {
            if self.steps@.contains_key(current.key_of()) {
                self.steps@[current.key_of()].0.lemma_key_injective(current);
            }
        }
        let mut next_dir = match first {
            Some(dir) => dir,
            None => {
                return path;
            },
        };
        path.push(current_state);
        loop
            invariant_except_break
                path@.len() > 0,
                path@.last() == current_state,
                steps.contains_key(current_state),
                steps[current_state] == next_dir,
                route(steps, self.goal, current, level[current]) == path@.drop_last() + route(
                    steps,
                    self.goal,
                    current_state,
                    level[current_state],
                ),
            invariant
                keyed(self.steps@),
                steps == steps_in(self.steps@),
                forall|p: Puzzle|
                    steps.contains_key(p) ==> #[trigger] leads(steps, level, self.goal, p),
                steps.contains_key(current),
            ensures
                path@ == route(steps, self.goal, current, level[current]),
            decreases level[current_state],
        {
            proof {
                lemma_route_step(steps, level, self.goal, current_state);
                assert(path@.drop_last() + seq![current_state] =~= path@);
            }
            let ghost before = path@;
            let ghost from = current_state;
            let next = match current_state.move_zero(next_dir) {
                Some(next) => next,
                None => {
                    break ;
                },
            };
            path.push(next);
            current_state = next;
            if current_state == self.goal {
                proof {
                    assert(path@ =~= before.drop_last() + seq![from, self.goal]);
                }
                break ;
            }
            proof {
                assert(steps.contains_key(next));
                assert(path@.drop_last() =~= before);
                assert(before.drop_last() + (seq![from] + route(
                    steps,
                    self.goal,
                    next,
                    level[next],
                )) =~= before + route(steps, self.goal, next, level[next]));
                if self.steps@.contains_key(next.key_of()) {
                    self.steps@[next.key_of()].0.lemma_key_injective(next);
                }
            }
            next_dir = match self.steps.get(&current_state.key()) {
                Some(entry) => entry.1,
                None => {
                    break ;
                },
            };
        }
        path
    }
}

/// `p` is among the states whose successors are still to be looked at.
spec fn waiting(queue: Seq<(Puzzle, i32)>, p: Puzzle) -> bool {
    exists|i: int| 0 <= i < queue.len() && (#[trigger] queue[i]).0 == p
}

/// The item is the goal as the sweep starts with it, or a state with a step
/// together with its level.
spec fn queued(
    goal: Puzzle,
    steps: Map<Puzzle, Direction>,
    level: Map<Puzzle, nat>,
    item: (Puzzle, i32),
) -> bool {
    &&& item.0.wf()
    &&& reachable_in(goal, item.0, item.1 as int)
    &&& 0 <= item.1 <= steps.dom().len()
    &&& (item.0 == goal && item.1 == 0) || (steps.contains_key(item.0) && level[item.0]
        == item.1)
}

/// What holds of the steps throughout the sweep.
spec fn steps_inv(goal: Puzzle, steps: Map<Puzzle, Direction>, level: Map<Puzzle, nat>) -> bool {
    &&& goal.wf()
    &&& steps.dom().finite()
    &&& forall|p: Puzzle| steps.contains_key(p) ==> #[trigger] leads(steps, level, goal, p)
    &&& forall|p: Puzzle| #[trigger]
        steps.contains_key(p) ==> reachable_in(goal, p, level[p] as int) && level[p]
            <= steps.dom().len()
    &&& forall|p: Puzzle| steps.contains_key(p) && p != goal ==> #[trigger] least(goal, level, p)
}

/// No walk from the goal to `p` has fewer slides than the level of `p`.
pub open spec fn least(goal: Puzzle, level: Map<Puzzle, nat>, p: Puzzle) -> bool {
    no_shorter(goal, p, level[p] as int)
}

/// The levels of the waiting states never fall along the queue, and run
/// from `low` to `low + 1` at most.
spec fn ordered(queue: Seq<(Puzzle, i32)>, low: int) -> bool {
    &&& forall|i: int| 0 <= i < queue.len() ==> low <= (#[trigger] queue[i]).1 <= low + 1
    &&& forall|i: int, j: int| 0 <= i < j < queue.len() ==> queue[i].1 <= queue[j].1
}

/// The state of the sweep between two states: the steps found so far, and
/// the states whose successors are still to be looked at.
spec fn sweeping(
    goal: Puzzle,
    steps: Map<Puzzle, Direction>,
    level: Map<Puzzle, nat>,
    queue: Seq<(Puzzle, i32)>,
) -> bool {
    &&& steps_inv(goal, steps, level)
    &&& forall|p: Puzzle| #[trigger]
        steps.contains_key(p) ==> settled(steps, p) || waiting(queue, p)
    &&& forall|i: int| 0 <= i < queue.len() ==> #[trigger] queued(goal, steps, level, queue[i])
    &&& queue.len() > 0 ==> ordered(queue, queue[0].1 as int)
    &&& if steps.dom().len() == 0 {
        queue == seq![(goal, 0i32)]
    } else {
        settled(steps, goal)
    }
}

/// The state of the sweep while the successors of `current` are looked at,
/// those in the first `upto` directions being done.
spec fn looking(
    goal: Puzzle,
    steps: Map<Puzzle, Direction>,
    level: Map<Puzzle, nat>,
    queue: Seq<(Puzzle, i32)>,
    current: (Puzzle, i32),
    upto: int,
) -> bool {
    &&& steps_inv(goal, steps, level)
    &&& forall|p: Puzzle| #[trigger]
        steps.contains_key(p) ==> settled(steps, p) || waiting(queue, p) || p == current.0
    &&& forall|i: int| 0 <= i < queue.len() ==> #[trigger] queued(goal, steps, level, queue[i])
    &&& queued(goal, steps, level, current)
    &&& ordered(queue, current.1 as int)
    &&& forall|d: Direction|
        d.index() < upto && (#[trigger] current.0.moved(d)) is Some ==> steps.contains_key(
            current.0.moved(d)->0,
        )
    &&& (current.0 == goal && current.1 == 0) || settled(steps, goal)
}

/// The steps stay what they should be when a successor of `current` that
/// has none yet gets the step back to `current`.
proof fn lemma_steps_grow(
    goal: Puzzle,
    steps: Map<Puzzle, Direction>,
    level: Map<Puzzle, nat>,
    queue: Seq<(Puzzle, i32)>,
    current: (Puzzle, i32),
    d: Direction,
)
    requires
        steps_inv(goal, steps, level),
        queued(goal, steps, level, current),
        (current.0 == goal && current.1 == 0) || settled(steps, goal),
        current.0.moved(d) is Some,
        !steps.contains_key(current.0.moved(d)->0),
        forall|p: Puzzle| #[trigger]
            steps.contains_key(p) ==> settled(steps, p) || waiting(queue, p) || p == current.0,
        forall|i: int| 0 <= i < queue.len() ==> #[trigger] queued(goal, steps, level, queue[i]),
        ordered(queue, current.1 as int),
    ensures
        steps_inv(
            goal,
            steps.insert(current.0.moved(d)->0, d.opposite()),
            level.insert(current.0.moved(d)->0, (current.1 + 1) as nat),
        ),
        reachable(goal, current.0.moved(d)->0),
        reachable_in(goal, current.0.moved(d)->0, current.1 + 1),
        (current.0.moved(d)->0).wf(),
        steps.insert(current.0.moved(d)->0, d.opposite()).dom().len() == steps.dom().len() + 1,
        steps.dom().len() + 1 <= state_bound(),
{
    let c = current.0;
    let next = c.moved(d)->0;
    let steps2 = steps.insert(next, d.opposite());
    let level2 = level.insert(next, (current.1 + 1) as nat);
    c.lemma_move_reverse(d);
    c.lemma_moved_wf(d);
    c.lemma_moved_differs(d);
    assert(c.adjacent(next));
    assert(steps2.dom() =~= steps.dom().insert(next));
    assert forall|p: Puzzle| #[trigger] steps2.dom().contains(p) implies p.wf() by {
        if p != next {
            assert(steps.contains_key(p));
            assert(leads(steps, level, goal, p));
        }
    }
    lemma_proper_boards_bounded(steps2.dom());
    assert(reachable_in(goal, next, current.1 + 1)) by {
        let w = choose|w: Seq<Puzzle>|
            #[trigger] connects(w, goal, c) && w.len() == current.1 + 1;
        lemma_walk_push(w, goal, c, next);
        assert(connects(w.push(next), goal, next));
    }
    assert(reachable(goal, next)) by {
        let w = choose|w: Seq<Puzzle>|
            #[trigger] connects(w, goal, next) && w.len() == current.1 + 2;
        assert(connects(w, goal, next));
    }
    assert forall|p: Puzzle| steps2.contains_key(p) && p != goal implies #[trigger] least(
        goal,
        level2,
        p,
    ) by {
        if p == next {
            assert forall|q: Puzzle| steps.contains_key(q) implies #[trigger] accounted(
                steps,
                queue,
                c,
                q,
            ) by {}
            assert forall|i: int| 0 <= i < queue.len() && queue[i].0 != goal implies #[trigger] leveled(
                level,
                queue[i],
            ) by {
                assert(queued(goal, steps, level, queue[i]));
            }
            assert forall|walk: Seq<Puzzle>| #[trigger] connects(walk, goal, next) implies current.1
                + 1 <= walk.len() - 1 by {
                lemma_sweep_least(goal, steps, level, queue, current, next, walk);
            }
        } else {
            assert(least(goal, level, p));
        }
    }
    assert forall|p: Puzzle| steps2.contains_key(p) implies #[trigger] leads(
        steps2,
        level2,
        goal,
        p,
    ) by {
        if p == next {
            assert(next.moved(d.opposite()) == Some(c));
            if c == goal && current.1 != 0 {
                assert(c.moved(d) is Some);
            }
        } else {
            assert(leads(steps, level, goal, p));
        }
    }
    assert forall|p: Puzzle| #[trigger] steps2.contains_key(p) implies reachable_in(
        goal,
        p,
        level2[p] as int,
    ) && level2[p] <= steps2.dom().len() by {
        if p != next {
            assert(steps.contains_key(p));
        }
    }
}

/// On a walk from the goal that ends outside the steps, some state that is
/// the goal or has a step is followed by one that is neither.
proof fn lemma_first_unknown(
    goal: Puzzle,
    steps: Map<Puzzle, Direction>,
    walk: Seq<Puzzle>,
    n: int,
) -> (j: int)
    requires
        walk.len() > 0,
        walk[0] == goal,
        0 <= n < walk.len(),
        walk[n] != goal,
        !steps.contains_key(walk[n]),
    ensures
        1 <= j <= n,
        walk[j - 1] == goal || steps.contains_key(walk[j - 1]),
        walk[j] != goal,
        !steps.contains_key(walk[j]),
    decreases n,
{
    if walk[n - 1] == goal || steps.contains_key(walk[n - 1]) {
        n
    } else {
        lemma_first_unknown(goal, steps, walk, n - 1)
    }
}

/// The successors of `p` all have steps, or `p` waits to be looked at, or
/// is the state that is looked at.
spec fn accounted(
    steps: Map<Puzzle, Direction>,
    queue: Seq<(Puzzle, i32)>,
    current: Puzzle,
    p: Puzzle,
) -> bool {
    settled(steps, p) || waiting(queue, p) || p == current
}

/// The level of a waiting state is the level it waits with.
spec fn leveled(level: Map<Puzzle, nat>, item: (Puzzle, i32)) -> bool {
    level[item.0] == item.1
}

/// A state that is met from `current` for the first time cannot be reached
/// from the goal in fewer slides than the level of `current` and one: a
/// shorter walk would pass a state that had to be looked at before `current`.
proof fn lemma_sweep_least(
    goal: Puzzle,
    steps: Map<Puzzle, Direction>,
    level: Map<Puzzle, nat>,
    queue: Seq<(Puzzle, i32)>,
    current: (Puzzle, i32),
    next: Puzzle,
    walk: Seq<Puzzle>,
)
    requires
        forall|p: Puzzle| steps.contains_key(p) && p != goal ==> #[trigger] least(goal, level, p),
        forall|p: Puzzle| steps.contains_key(p) ==> #[trigger] accounted(steps, queue, current.0, p),
        forall|i: int|
            0 <= i < queue.len() && queue[i].0 != goal ==> #[trigger] leveled(level, queue[i]),
        current.0 != goal ==> level[current.0] == current.1,
        current.0 == goal ==> current.1 == 0 || settled(steps, goal),
        current.0 != goal ==> settled(steps, goal),
        ordered(queue, current.1 as int),
        0 <= current.1,
        !steps.contains_key(next),
        next != goal,
        connects(walk, goal, next),
    ensures
        current.1 + 1 <= walk.len() - 1,
{
    let last = walk.len() - 1;
    let j = lemma_first_unknown(goal, steps, walk, last);
    let from = walk[j - 1];
    let to = walk[j];
    assert(slides(walk, j - 1));
    let d = choose|d: Direction| from.moved(d) == Some(to);
    assert(from.moved(d) is Some);
    // `from` has a successor without a step: it is not settled.
    assert(!settled(steps, from));
    if from != goal {
        lemma_walk_take(walk, goal, next, j - 1);
        assert(connects(walk.take(j), goal, from));
        assert(least(goal, level, from));
        assert(level[from] <= j - 1);
        assert(accounted(steps, queue, current.0, from));
        if from != current.0 {
            let i = choose|i: int| 0 <= i < queue.len() && (#[trigger] queue[i]).0 == from;
            assert(leveled(level, queue[i]));
            assert(current.1 <= queue[i].1);
        }
    }
}

/// A successor of `current` that has no step yet gets the step back to
/// `current`, and waits to be looked at itself.
proof fn lemma_sweep_insert(
    goal: Puzzle,
    steps: Map<Puzzle, Direction>,
    level: Map<Puzzle, nat>,
    queue: Seq<(Puzzle, i32)>,
    current: (Puzzle, i32),
    d: Direction,
)
    requires
        looking(goal, steps, level, queue, current, d.index()),
        current.0.moved(d) is Some,
        !steps.contains_key(current.0.moved(d)->0),
    ensures
        looking(
            goal,
            steps.insert(current.0.moved(d)->0, d.opposite()),
            level.insert(current.0.moved(d)->0, (current.1 + 1) as nat),
            queue.push((current.0.moved(d)->0, (current.1 + 1) as i32)),
            current,
            d.index() + 1,
        ),
        current.1 + 1 <= state_bound(),
{
    let c = current.0;
    let next = c.moved(d)->0;
    let steps2 = steps.insert(next, d.opposite());
    let level2 = level.insert(next, (current.1 + 1) as nat);
    let item = (next, (current.1 + 1) as i32);
    let queue2 = queue.push(item);
    lemma_steps_grow(goal, steps, level, queue, current, d);
    assert(ordered(queue2, current.1 as int)) by {
        assert forall|i: int| 0 <= i < queue2.len() implies current.1 <= (#[trigger] queue2[i]).1
            <= current.1 + 1 by {
            if i < queue.len() {
                assert(queue2[i] == queue[i]);
            }
        }
        assert forall|i: int, j: int| 0 <= i < j < queue2.len() implies queue2[i].1
            <= queue2[j].1 by {
            assert(queue2[i] == queue[i]);
            if j < queue.len() {
                assert(queue2[j] == queue[j]);
            }
        }
    }
    assert forall|p: Puzzle| #[trigger] steps2.contains_key(p) implies settled(steps2, p)
        || waiting(queue2, p) || p == c by {
        if p == next {
            assert(queue2[queue.len() as int].0 == next);
        } else {
            assert(steps.contains_key(p));
            if waiting(queue, p) {
                let i = choose|i: int| 0 <= i < queue.len() && (#[trigger] queue[i]).0 == p;
                assert(queue2[i].0 == p);
            }
        }
    }
    assert forall|i: int| 0 <= i < queue2.len() implies #[trigger] queued(
        goal,
        steps2,
        level2,
        queue2[i],
    ) by {
        if i < queue.len() {
            assert(queued(goal, steps, level, queue[i]));
        }
    }
    assert forall|e: Direction|
        e.index() < d.index() + 1 && (#[trigger] c.moved(e)) is Some implies steps2.contains_key(
        c.moved(e)->0,
    ) by {
        if e.index() == d.index() {
            assert(e == d);
        }
    }
}

/// A successor of `current` that has a step needs nothing done.
proof fn lemma_sweep_skip(
    goal: Puzzle,
    steps: Map<Puzzle, Direction>,
    level: Map<Puzzle, nat>,
    queue: Seq<(Puzzle, i32)>,
    current: (Puzzle, i32),
    d: Direction,
)
    requires
        looking(goal, steps, level, queue, current, d.index()),
        current.0.moved(d) is Some ==> steps.contains_key(current.0.moved(d)->0),
    ensures
        looking(goal, steps, level, queue, current, d.index() + 1),
{
    assert forall|e: Direction|
        e.index() < d.index() + 1 && (#[trigger] current.0.moved(e)) is Some implies steps.contains_key(
        current.0.moved(e)->0,
    ) by {
        if e.index() == d.index() {
            assert(e == d);
        }
    }
}

/// The sweep takes the state at the head of the queue.
proof fn lemma_sweep_take(
    goal: Puzzle,
    steps: Map<Puzzle, Direction>,
    level: Map<Puzzle, nat>,
    queue: Seq<(Puzzle, i32)>,
)
    requires
        sweeping(goal, steps, level, queue),
        queue.len() > 0,
    ensures
        looking(goal, steps, level, queue.subrange(1, queue.len() as int), queue[0], 0),
{
    let rest = queue.subrange(1, queue.len() as int);
    assert(queued(goal, steps, level, queue[0]));
    assert forall|p: Puzzle| #[trigger] steps.contains_key(p) implies settled(steps, p)
        || waiting(rest, p) || p == queue[0].0 by {
        if waiting(queue, p) {
            let i = choose|i: int| 0 <= i < queue.len() && (#[trigger] queue[i]).0 == p;
            if i > 0 {
                assert(rest[i - 1].0 == p);
            }
        }
    }
    assert forall|i: int| 0 <= i < rest.len() implies #[trigger] queued(
        goal,
        steps,
        level,
        rest[i],
    ) by {
        assert(queued(goal, steps, level, queue[i + 1]));
    }
    if steps.dom().len() != 0 {
    } else {
        assert(queue[0] == (goal, 0i32));
    }
    assert(ordered(rest, queue[0].1 as int)) by {
        assert forall|i: int| 0 <= i < rest.len() implies queue[0].1 <= (#[trigger] rest[i]).1
            <= queue[0].1 + 1 by {
            assert(rest[i] == queue[i + 1]);
        }
        assert forall|i: int, j: int| 0 <= i < j < rest.len() implies rest[i].1 <= rest[j].1 by {
            assert(rest[i] == queue[i + 1]);
            assert(rest[j] == queue[j + 1]);
        }
    }
}

/// With all four directions done the sweep goes on to the next state.
proof fn lemma_sweep_done(
    goal: Puzzle,
    steps: Map<Puzzle, Direction>,
    level: Map<Puzzle, nat>,
    queue: Seq<(Puzzle, i32)>,
    current: (Puzzle, i32),
)
    requires
        looking(goal, steps, level, queue, current, 4),
    ensures
        sweeping(goal, steps, level, queue),
        steps.dom().len() > 0,
{
    let c = current.0;
    assert forall|d: Direction| (#[trigger] c.moved(d)) is Some implies steps.contains_key(
        c.moved(d)->0,
    ) by {
        assert(d.index() < 4);
    }
    assert(settled(steps, c));
    // A proper board has a successor, which has a step by now.
    c.lemma_wf_blank();
    let d = if c.blank() >= 3 {
        Direction::Up
    } else {
        Direction::Down
    };
    assert(c.moved(d) is Some);
    assert(steps.dom().contains(c.moved(d)->0));
    vstd::set_lib::lemma_set_empty_equivalency_len(steps.dom());
    if queue.len() > 0 {
        assert(current.1 <= queue[0].1);
        assert forall|i: int| 0 <= i < queue.len() implies queue[0].1 <= (#[trigger] queue[i]).1
            <= queue[0].1 + 1 by {
            if i > 0 {
                assert(queue[0].1 <= queue[i].1);
            }
        }
    }
}

/// Once no state waits, every state that the goal can be reached from, the
/// goal itself left aside, has a step.
proof fn lemma_sweep_complete(
    goal: Puzzle,
    steps: Map<Puzzle, Direction>,
    level: Map<Puzzle, nat>,
    walk: Seq<Puzzle>,
    n: int,
)
    requires
        sweeping(goal, steps, level, Seq::empty()),
        walk.len() > 0,
        walk[0] == goal,
        is_walk(walk),
        1 <= n < walk.len(),
    ensures
        steps.contains_key(walk[n]),
    decreases n,
{
    assert(steps.dom().len() != 0) by {
        assert(seq![(goal, 0i32)].len() == 1);
    }
    assert(slides(walk, n - 1));
    let from = walk[n - 1];
    let to = walk[n];
    let d = choose|d: Direction| from.moved(d) == Some(to);
    assert(from.moved(d) is Some);
    if n > 1 {
        lemma_sweep_complete(goal, steps, level, walk, n - 1);
        assert(settled(steps, from) || waiting(Seq::<(Puzzle, i32)>::empty(), from));
    }
}


} // verus!
