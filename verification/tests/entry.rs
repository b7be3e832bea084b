use eight_puzzle::entry::{SetPuzzle, EMPTY};
use eight_puzzle::puzzle::Puzzle;

#[test]
fn entry_starts_empty() {
    let entry = SetPuzzle::new();
    assert_eq!(entry.current(), 0);
    for i in 0..9 {
        assert_eq!(entry.value_at(i), EMPTY);
    }
    assert_eq!(entry.get_puzzle(), None);
}

#[test]
fn entry_takes_each_value_once() {
    let mut entry = SetPuzzle::new();
    assert!(entry.set_value(3));
    assert!(!entry.set_value(3));
    assert!(entry.set_value(0));
    assert!(!entry.set_value(0));
    assert!(!entry.set_value(3));
    assert_eq!(entry.current(), 2);
    assert_eq!(entry.value_at(0), 3);
    assert_eq!(entry.value_at(1), 0);
    assert_eq!(entry.value_at(2), EMPTY);
    assert_eq!(entry.get_puzzle(), None);
}

#[test]
fn entry_gives_the_board_when_all_cells_are_entered() {
    let mut entry = SetPuzzle::new();
    let values = [1, 2, 3, 8, 0, 4, 7, 6, 5];
    for (i, v) in values.iter().enumerate() {
        assert_eq!(entry.get_puzzle(), None);
        assert_eq!(entry.current() as usize, i);
        assert!(entry.set_value(*v));
    }
    assert_eq!(entry.current(), 9);
    let board = entry.get_puzzle().unwrap();
    assert_eq!(board, Puzzle::new([[1, 2, 3], [8, 0, 4], [7, 6, 5]]));
    assert!(board.is_valid());
    // Every value is entered: none is taken any more.
    for v in 0..9 {
        assert!(!entry.set_value(v));
    }
    assert_eq!(entry.get_puzzle(), Some(board));
}
