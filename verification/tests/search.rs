use eight_puzzle::closed::{MapSearchTree, SearchTree};
use eight_puzzle::heuristic::{AStarHeuristic1, AStarHeuristic2, BfsHeuristic, Heuristic};
use eight_puzzle::puzzle::{Direction, Puzzle};
use eight_puzzle::search::solve_from_initial;
use eight_puzzle::solution::{solution_cost, solution_path};

fn goal() -> Puzzle {
    Puzzle::new([[1, 2, 3], [8, 0, 4], [7, 6, 5]])
}

fn start() -> Puzzle {
    Puzzle::new([[1, 3, 4], [8, 2, 5], [0, 7, 6]])
}

fn solve<H: Heuristic>(initial: Puzzle, goal: Puzzle) -> MapSearchTree {
    let mut tree = MapSearchTree::new(&goal, &initial);
    solve_from_initial::<MapSearchTree, H>(initial, goal, &mut tree);
    tree
}

fn is_walk(path: &[Puzzle]) -> bool {
    path.windows(2).all(|w| Direction::all().iter().any(|d| w[0].move_zero(*d) == Some(w[1])))
}

/// Every recorded state hangs on a recorded parent one slide away and one
/// slide cheaper; the root is its own parent.
fn is_tree(tree: &MapSearchTree) -> bool {
    let root = *tree.initial();
    tree.map().iter().all(|(state, (parent, g))| {
        if *state == root {
            *parent == root && *g == 0
        } else {
            match tree.get(parent) {
                Some((_, pg)) => pg + 1 == *g && is_walk(&[*parent, *state]),
                None => false,
            }
        }
    })
}

#[test]
fn empty_record_holds_nothing() {
    let tree = MapSearchTree::new(&goal(), &start());
    assert!(!tree.goal_reached());
    assert_eq!(tree.get(&start()), None);
    assert_eq!(tree.len(), 0);
    assert_eq!(*tree.goal(), goal());
    assert_eq!(*tree.initial(), start());
}

#[test]
fn set_then_get_last_write_wins() {
    let mut tree = MapSearchTree::new(&goal(), &start());
    tree.set(start(), (start(), 0));
    tree.set(goal(), (start(), 4));
    tree.set(goal(), (goal(), 2));
    assert_eq!(tree.get(&start()), Some((start(), 0)));
    assert_eq!(tree.get(&goal()), Some((goal(), 2)));
    assert!(tree.goal_reached());
    assert_eq!(tree.len(), 2);
    assert_eq!(tree.map(), &vec![(start(), (start(), 0)), (goal(), (goal(), 2))]);
}

#[test]
fn initial_equal_to_goal_is_solved_at_cost_zero() {
    let tree = solve::<BfsHeuristic>(goal(), goal());
    assert!(tree.goal_reached());
    assert_eq!(tree.len(), 1);
    assert_eq!(tree.get(&goal()), Some((goal(), 0)));
    assert_eq!(solution_cost(&tree, &goal()), Some(0));
    assert_eq!(solution_path(&tree, &goal(), &goal()), Some(vec![goal()]));
    let tree = solve::<AStarHeuristic1>(goal(), goal());
    assert_eq!(tree.map(), &vec![(goal(), (goal(), 0))]);
    let tree = solve::<AStarHeuristic2>(goal(), goal());
    assert_eq!(tree.map(), &vec![(goal(), (goal(), 0))]);
}

#[test]
fn breadth_first_finds_the_shortest_solution() {
    let tree = solve::<BfsHeuristic>(start(), goal());
    assert!(tree.goal_reached());
    assert_eq!(solution_cost(&tree, &goal()), Some(6));
    assert_eq!(tree.len(), 83);
    assert!(is_tree(&tree));
    let path = solution_path(&tree, &start(), &goal()).unwrap();
    assert_eq!(path.len(), 7);
    assert_eq!(path[0], start());
    assert_eq!(path[6], goal());
    assert!(is_walk(&path));
}

#[test]
fn one_slide_away_is_solved_in_one_slide() {
    for d in Direction::all() {
        let near = goal().move_zero(d).unwrap();
        let tree = solve::<BfsHeuristic>(near, goal());
        assert_eq!(solution_cost(&tree, &goal()), Some(1));
        assert_eq!(solution_path(&tree, &near, &goal()), Some(vec![near, goal()]));
    }
}

#[test]
fn guided_searches_match_breadth_first() {
    let tree1 = solve::<AStarHeuristic1>(start(), goal());
    let tree2 = solve::<AStarHeuristic2>(start(), goal());
    assert_eq!(solution_cost(&tree1, &goal()), Some(6));
    assert_eq!(solution_cost(&tree2, &goal()), Some(6));
    assert_eq!(tree1.len(), 9);
    assert_eq!(tree2.len(), 7);
    assert!(is_tree(&tree1));
    assert!(is_tree(&tree2));
    for tree in [&tree1, &tree2] {
        let path = solution_path(tree, &start(), &goal()).unwrap();
        assert_eq!(path.len(), 7);
        assert!(is_walk(&path));
    }
}

#[test]
fn guided_searches_match_breadth_first_on_a_walk() {
    let target = Puzzle::new([[1, 2, 3], [4, 5, 6], [7, 8, 0]]);
    let turns = [Direction::Up, Direction::Left, Direction::Up, Direction::Right, Direction::Down, Direction::Left, Direction::Left, Direction::Down, Direction::Right, Direction::Up, Direction::Up, Direction::Right];
    let mut board = target;
    for d in turns {
        board = board.move_zero(d).unwrap();
        let wide = solve::<BfsHeuristic>(board, target);
        let cost = solution_cost(&wide, &target);
        assert!(cost.is_some());
        assert_eq!(solution_cost(&solve::<AStarHeuristic1>(board, target), &target), cost);
        assert_eq!(solution_cost(&solve::<AStarHeuristic2>(board, target), &target), cost);
    }
}

#[test]
fn swapped_neighbours_cannot_be_solved() {
    let target = Puzzle::new([[1, 2, 3], [4, 5, 6], [7, 8, 0]]);
    let swapped = Puzzle::new([[2, 1, 3], [4, 5, 6], [7, 8, 0]]);
    let tree = solve::<BfsHeuristic>(swapped, target);
    assert!(!tree.goal_reached());
    assert_eq!(solution_cost(&tree, &target), None);
    assert_eq!(solution_path(&tree, &swapped, &target), None);
    // Half of all boards can be reached, and all of them were settled.
    assert_eq!(tree.len(), 181_440);
}

#[test]
fn swapped_neighbours_cannot_be_solved_with_estimates() {
    let target = Puzzle::new([[1, 2, 3], [4, 5, 6], [7, 8, 0]]);
    let swapped = Puzzle::new([[1, 2, 3], [4, 5, 6], [8, 7, 0]]);
    let tree = solve::<AStarHeuristic2>(swapped, target);
    assert!(!tree.goal_reached());
    assert_eq!(tree.len(), 181_440);
    let tree = solve::<AStarHeuristic1>(swapped, target);
    assert!(!tree.goal_reached());
    assert_eq!(tree.len(), 181_440);
}

#[test]
fn solution_path_of_a_broken_record_is_none() {
    let mut tree = MapSearchTree::new(&goal(), &start());
    // The goal names a parent that the record does not hold.
    tree.set(goal(), (goal().move_zero(Direction::Up).unwrap(), 3));
    assert_eq!(solution_path(&tree, &start(), &goal()), None);
    // The record leads back to the start, but in more steps than the cost allows.
    let mid = goal().move_zero(Direction::Up).unwrap();
    tree.set(mid, (start(), 1));
    tree.set(goal(), (mid, 1));
    assert_eq!(solution_path(&tree, &start(), &goal()), None);
    tree.set(goal(), (mid, 2));
    assert_eq!(solution_path(&tree, &start(), &goal()), Some(vec![start(), mid, goal()]));
}

/// A walk of `len` slides from `from`, turned by a fixed sequence of numbers.
fn wander(from: Puzzle, len: usize, seed: &mut u64) -> Puzzle {
    let mut board = from;
    let mut made = 0;
    while made < len {
        *seed = seed.wrapping_mul(6364136223846793005).wrapping_add(1442695040888963407);
        let d = Direction::all()[((*seed >> 33) % 4) as usize];
        if let Some(next) = board.move_zero(d) {
            board = next;
            made += 1;
        }
    }
    board
}

#[test]
fn guided_searches_match_breadth_first_on_many_walks() {
    let mut seed = 2024u64;
    let goals = [goal(), Puzzle::new([[1, 2, 3], [4, 5, 6], [7, 8, 0]]), Puzzle::new([[0, 1, 2], [3, 4, 5], [6, 7, 8]])];
    for round in 0..45 {
        let target = goals[round % 3];
        let board = wander(target, 4 + round % 12, &mut seed);
        let wide = solve::<BfsHeuristic>(board, target);
        let cost = solution_cost(&wide, &target).unwrap();
        assert!(cost as usize <= 4 + round % 12);
        let by_cells = solve::<AStarHeuristic1>(board, target);
        let by_tiles = solve::<AStarHeuristic2>(board, target);
        assert_eq!(solution_cost(&by_cells, &target), Some(cost));
        assert_eq!(solution_cost(&by_tiles, &target), Some(cost));
        assert!(by_tiles.len() <= wide.len());
        let path = solution_path(&by_cells, &board, &target).unwrap();
        assert_eq!(path.len(), cost as usize + 1);
        assert!(is_walk(&path));
        assert!(is_tree(&by_cells));
    }
}
