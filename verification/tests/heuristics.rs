use eight_puzzle::heuristic::{AStarHeuristic1, AStarHeuristic2, BfsHeuristic, Heuristic};
use eight_puzzle::puzzle::{Direction, Puzzle};

fn goal() -> Puzzle {
    Puzzle::new([[1, 2, 3], [8, 0, 4], [7, 6, 5]])
}

#[test]
fn zero_heuristic_is_always_zero() {
    let mut h = BfsHeuristic::new();
    assert_eq!(h.estimate_h(&goal(), &goal()), 0);
    assert_eq!(h.estimate_h(&Puzzle::new([[1, 3, 4], [8, 2, 5], [0, 7, 6]]), &goal()), 0);
}

#[test]
fn misplaced_count_includes_the_blank() {
    let mut h = AStarHeuristic1::new();
    assert_eq!(h.estimate_h(&goal(), &goal()), 0);
    // One slide from the goal: the blank and one tile are out of place.
    let near = goal().move_zero(Direction::Up).unwrap();
    assert_eq!(h.estimate_h(&near, &goal()), 2);
    let start = Puzzle::new([[1, 3, 4], [8, 2, 5], [0, 7, 6]]);
    assert_eq!(h.estimate_h(&start, &goal()), 7);
    let all_off = Puzzle::new([[2, 3, 4], [0, 8, 5], [6, 7, 1]]);
    assert_eq!(h.estimate_h(&all_off, &goal()), 9);
}

#[test]
fn misplaced_tiles_leave_the_blank_out() {
    let mut h = AStarHeuristic2::new();
    assert_eq!(h.estimate_h(&goal(), &goal()), 0);
    let near = goal().move_zero(Direction::Up).unwrap();
    assert_eq!(h.estimate_h(&near, &goal()), 1);
    let start = Puzzle::new([[1, 3, 4], [8, 2, 5], [0, 7, 6]]);
    assert_eq!(h.estimate_h(&start, &goal()), 6);
    let all_off = Puzzle::new([[2, 3, 4], [0, 8, 5], [6, 7, 1]]);
    assert_eq!(h.estimate_h(&all_off, &goal()), 8);
}

#[test]
fn misplaced_tiles_change_by_at_most_one_per_slide() {
    let mut h = AStarHeuristic2::new();
    let mut board = Puzzle::new([[1, 3, 4], [8, 2, 5], [0, 7, 6]]);
    let walk = [
        Direction::Up,
        Direction::Right,
        Direction::Right,
        Direction::Down,
        Direction::Left,
        Direction::Up,
        Direction::Up,
        Direction::Left,
    ];
    for d in walk {
        let next = board.move_zero(d).unwrap();
        let before = h.estimate_h(&board, &goal());
        let after = h.estimate_h(&next, &goal());
        assert!((before - after).abs() <= 1);
        board = next;
    }
}
