use eight_puzzle::puzzle::{Direction, Puzzle};

fn centre() -> Puzzle {
    Puzzle::new([[1, 2, 3], [8, 0, 4], [7, 6, 5]])
}

#[test]
fn new_keeps_every_cell() {
    let board = [[1, 3, 4], [8, 2, 5], [0, 7, 6]];
    let p = Puzzle::new(board);
    for i in 0..3 {
        for j in 0..3 {
            assert_eq!(p.get_value(i, j), board[i][j]);
        }
    }
}

#[test]
fn find_zero_gives_row_and_column() {
    assert_eq!(centre().find_zero(), Some((1, 1)));
    assert_eq!(Puzzle::new([[1, 3, 4], [8, 2, 5], [0, 7, 6]]).find_zero(), Some((2, 0)));
    assert_eq!(Puzzle::new([[1, 2, 0], [3, 4, 5], [6, 7, 8]]).find_zero(), Some((0, 2)));
}

#[test]
fn find_zero_on_a_board_without_blank() {
    assert_eq!(Puzzle::new([[1, 2, 3], [4, 5, 6], [7, 8, 9]]).find_zero(), None);
}

#[test]
fn find_zero_takes_the_first_of_two_blanks() {
    assert_eq!(Puzzle::new([[1, 2, 3], [0, 5, 0], [7, 8, 4]]).find_zero(), Some((1, 0)));
}

#[test]
fn directions_come_in_generation_order() {
    let all = Direction::all();
    assert!(all[0] == Direction::Up);
    assert!(all[1] == Direction::Down);
    assert!(all[2] == Direction::Left);
    assert!(all[3] == Direction::Right);
}

#[test]
fn reverse_is_an_involution() {
    for d in Direction::all() {
        assert!(d.reverse() != d);
        assert!(d.reverse().reverse() == d);
    }
    assert!(Direction::Up.reverse() == Direction::Down);
    assert!(Direction::Left.reverse() == Direction::Right);
}

#[test]
fn move_zero_from_the_centre() {
    let p = centre();
    assert_eq!(p.move_zero(Direction::Up), Some(Puzzle::new([[1, 0, 3], [8, 2, 4], [7, 6, 5]])));
    assert_eq!(p.move_zero(Direction::Down), Some(Puzzle::new([[1, 2, 3], [8, 6, 4], [7, 0, 5]])));
    assert_eq!(p.move_zero(Direction::Left), Some(Puzzle::new([[1, 2, 3], [0, 8, 4], [7, 6, 5]])));
    assert_eq!(p.move_zero(Direction::Right), Some(Puzzle::new([[1, 2, 3], [8, 4, 0], [7, 6, 5]])));
}

#[test]
fn move_zero_stops_at_the_edges() {
    let top_left = Puzzle::new([[0, 1, 2], [3, 4, 5], [6, 7, 8]]);
    assert_eq!(top_left.move_zero(Direction::Up), None);
    assert_eq!(top_left.move_zero(Direction::Left), None);
    assert!(top_left.move_zero(Direction::Down).is_some());
    assert!(top_left.move_zero(Direction::Right).is_some());
    let bottom_right = Puzzle::new([[1, 2, 3], [4, 5, 6], [7, 8, 0]]);
    assert_eq!(bottom_right.move_zero(Direction::Down), None);
    assert_eq!(bottom_right.move_zero(Direction::Right), None);
    let right_edge = Puzzle::new([[1, 2, 3], [4, 5, 0], [7, 8, 6]]);
    assert_eq!(right_edge.move_zero(Direction::Right), None);
    assert_eq!(
        right_edge.move_zero(Direction::Left),
        Some(Puzzle::new([[1, 2, 3], [4, 0, 5], [7, 8, 6]]))
    );
}

#[test]
fn move_zero_without_blank_gives_nothing() {
    let p = Puzzle::new([[1, 2, 3], [4, 5, 6], [7, 8, 9]]);
    for d in Direction::all() {
        assert_eq!(p.move_zero(d), None);
    }
}

#[test]
fn move_then_reverse_restores_the_board() {
    let mut boards = vec![centre(), Puzzle::new([[1, 3, 4], [8, 2, 5], [0, 7, 6]])];
    boards.push(Puzzle::new([[0, 1, 2], [3, 4, 5], [6, 7, 8]]));
    boards.push(Puzzle::new([[1, 2, 3], [4, 5, 6], [7, 8, 0]]));
    for start in boards {
        for d in Direction::all() {
            if let Some(moved) = start.move_zero(d) {
                assert_ne!(moved, start);
                assert!(moved.is_valid());
                assert_eq!(moved.move_zero(d.reverse()), Some(start));
            }
        }
    }
}

#[test]
fn is_valid_wants_each_value_once() {
    assert!(centre().is_valid());
    assert!(!Puzzle::new([[1, 2, 3], [4, 5, 6], [7, 8, 9]]).is_valid());
    assert!(!Puzzle::new([[1, 2, 3], [0, 5, 0], [7, 8, 4]]).is_valid());
    assert!(!Puzzle::new([[1, 1, 3], [8, 0, 4], [7, 6, 5]]).is_valid());
    assert!(!Puzzle::new([[0, 0, 0], [0, 0, 0], [0, 0, 0]]).is_valid());
}

#[test]
fn key_tells_boards_apart() {
    let a = centre();
    let b = a.move_zero(Direction::Up).unwrap();
    assert_ne!(a.key(), b.key());
    assert_eq!(a.key(), centre().key());
    assert_eq!(Puzzle::new([[1, 0, 0], [0, 0, 0], [0, 0, 0]]).key(), 1);
    assert_eq!(Puzzle::new([[0, 1, 0], [0, 0, 0], [0, 0, 0]]).key(), 256);
    assert_eq!(Puzzle::new([[0, 0, 0], [0, 0, 0], [0, 0, 255]]).key(), 255u128 << 64);
}

#[test]
fn from_picks_deals_the_tiles_in_order() {
    let p = Puzzle::from_picks(4, &vec![0, 0, 0, 0, 0, 0, 0, 0]);
    assert_eq!(p, Puzzle::new([[1, 2, 3], [4, 0, 5], [6, 7, 8]]));
    let q = Puzzle::from_picks(0, &vec![7, 6, 5, 4, 3, 2, 1, 0]);
    assert_eq!(q, Puzzle::new([[0, 8, 7], [6, 5, 4], [3, 2, 1]]));
    let r = Puzzle::from_picks(8, &vec![2, 0, 5, 1, 0, 2, 1, 0]);
    assert_eq!(r, Puzzle::new([[3, 1, 8], [4, 2, 7], [6, 5, 0]]));
}

#[test]
fn from_random_gives_proper_boards() {
    let mut blank_cells = [false; 9];
    for _ in 0..500 {
        let p = Puzzle::from_random();
        assert!(p.is_valid());
        let (i, j) = p.find_zero().unwrap();
        blank_cells[3 * i + j] = true;
    }
    assert!(blank_cells.iter().filter(|&&seen| seen).count() > 1);
}
