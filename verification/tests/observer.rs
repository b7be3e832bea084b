use eight_puzzle::closed::{MapSearchTree, SearchTree, WatchedSearchTree};
use eight_puzzle::heuristic::BfsHeuristic;
use eight_puzzle::open_set::OpenSet;
use eight_puzzle::puzzle::{Direction, Puzzle};
use eight_puzzle::search::solve_from_initial;
use std::cell::RefCell;

#[test]
fn observer_is_told_of_every_successor_tried() {
    let goal = Puzzle::new([[1, 2, 3], [8, 0, 4], [7, 6, 5]]);
    let up = goal.move_zero(Direction::Up).unwrap();
    let initial = up.move_zero(Direction::Left).unwrap();
    let told: RefCell<Vec<(Puzzle, Puzzle, bool, usize, usize)>> = RefCell::new(Vec::new());
    let watch = |current: &Puzzle, next: &Puzzle, pushed: bool, open: &OpenSet, record: &MapSearchTree| {
        told.borrow_mut().push((*current, *next, pushed, record.len(), open.iter().len()));
    };
    let mut watched = WatchedSearchTree { record: MapSearchTree::new(&goal, &initial), watch };
    solve_from_initial::<_, BfsHeuristic>(initial, goal, &mut watched);
    assert!(watched.goal_reached());
    assert_eq!(watched.get(&goal), Some((up, 2)));
    let record = watched.record;
    let told = told.into_inner();
    // The blank of the initial state is in the top left corner: it has the
    // successors down and right. Both are pushed, and the function is told
    // of both once both are in the open set.
    let down = initial.move_zero(Direction::Down).unwrap();
    assert_eq!(told[0], (initial, down, true, 1, 2));
    assert_eq!(told[1], (initial, up, true, 1, 2));
    // Next the state below the initial state is expanded: the way back up
    // leads to a settled state, the two other successors are pushed.
    let told_of_down: Vec<_> = told.iter().filter(|t| t.0 == down).collect();
    assert_eq!(told_of_down.len(), 3);
    assert_eq!(*told_of_down[0], (down, initial, false, 2, 3));
    assert!(told_of_down[1].2 && told_of_down[2].2);
    // The goal is settled without being expanded.
    assert!(told.iter().all(|t| t.0 != goal));
    assert!(told.iter().any(|t| t.0 == up && t.1 == goal && t.2));
    assert!(record.goal_reached());
    assert_eq!(record.map()[0], (initial, (initial, 0)));
}
