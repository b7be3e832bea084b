use eight_puzzle::closed::MapSearchTree;
use eight_puzzle::heuristic::BfsHeuristic;
use eight_puzzle::puzzle::{Direction, Puzzle};
use eight_puzzle::search::solve_from_initial;
use eight_puzzle::solution::solution_cost;
use eight_puzzle::solution_map::SolutionMap;

fn goal() -> Puzzle {
    Puzzle::new([[1, 2, 3], [8, 0, 4], [7, 6, 5]])
}

fn is_walk(path: &[Puzzle]) -> bool {
    path.windows(2).all(|w| Direction::all().iter().any(|d| w[0].move_zero(*d) == Some(w[1])))
}

#[test]
fn solution_map_leads_every_state_to_the_goal() {
    let map = SolutionMap::new(goal());
    assert_eq!(*map.goal(), goal());
    // One slide away.
    for d in Direction::all() {
        let near = goal().move_zero(d).unwrap();
        assert_eq!(map.reconstruct_path(near), vec![near, goal()]);
    }
    // Six slides away.
    let start = Puzzle::new([[1, 3, 4], [8, 2, 5], [0, 7, 6]]);
    let path = map.reconstruct_path(start);
    assert_eq!(path.len(), 7);
    assert_eq!(path[0], start);
    assert_eq!(path[6], goal());
    assert!(is_walk(&path));
    // A longer walk away: the path is a walk to the goal, and no longer than the walk.
    let mut board = goal();
    let turns = [Direction::Up, Direction::Left, Direction::Down, Direction::Down, Direction::Right, Direction::Right, Direction::Up, Direction::Left, Direction::Up, Direction::Right, Direction::Down, Direction::Down, Direction::Left, Direction::Left, Direction::Up];
    for (made, d) in turns.iter().enumerate() {
        board = board.move_zero(*d).unwrap();
        let path = map.reconstruct_path(board);
        assert_eq!(path[0], board);
        assert_eq!(*path.last().unwrap(), goal());
        assert!(is_walk(&path));
        assert!(path.len() <= made + 2);
    }
}

#[test]
fn solution_map_has_no_path_from_the_other_half() {
    let map = SolutionMap::new(goal());
    let swapped = Puzzle::new([[2, 1, 3], [8, 0, 4], [7, 6, 5]]);
    assert!(map.reconstruct_path(swapped).is_empty());
    assert!(map.reconstruct_path(Puzzle::new([[1, 2, 3], [4, 5, 6], [7, 8, 9]])).is_empty());
}

#[test]
fn solution_map_path_from_the_goal_goes_out_and_back() {
    let map = SolutionMap::new(goal());
    let out = goal().move_zero(Direction::Up).unwrap();
    assert_eq!(map.reconstruct_path(goal()), vec![goal(), out, goal()]);
    let corner = Puzzle::new([[1, 2, 3], [4, 5, 6], [7, 8, 0]]);
    let map = SolutionMap::new(corner);
    let out = corner.move_zero(Direction::Up).unwrap();
    assert_eq!(map.reconstruct_path(corner), vec![corner, out, corner]);
}

#[test]
fn solution_map_paths_are_as_short_as_a_search_finds() {
    let map = SolutionMap::new(goal());
    let mut board = goal();
    let turns = [Direction::Left, Direction::Up, Direction::Right, Direction::Right, Direction::Down, Direction::Down, Direction::Left, Direction::Up, Direction::Left, Direction::Down];
    for d in turns {
        board = board.move_zero(d).unwrap();
        if board == goal() {
            continue;
        }
        let mut record = MapSearchTree::new(&goal(), &board);
        solve_from_initial::<MapSearchTree, BfsHeuristic>(board, goal(), &mut record);
        let cost = solution_cost(&record, &goal()).unwrap();
        assert_eq!(map.reconstruct_path(board).len(), cost as usize + 1);
    }
}
