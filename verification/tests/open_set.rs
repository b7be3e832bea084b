use eight_puzzle::open_set::{OpenNode, OpenSet};
use eight_puzzle::puzzle::{Direction, Puzzle};

fn root() -> Puzzle {
    Puzzle::new([[1, 2, 3], [8, 0, 4], [7, 6, 5]])
}

fn node(puzzle: Puzzle, parent: Puzzle, g: i32, h: i32) -> OpenNode {
    OpenNode { puzzle, parent, g, h }
}

#[test]
fn pop_on_an_empty_set_gives_nothing() {
    let mut open = OpenSet::new();
    assert!(open.pop().is_none());
    assert!(open.iter().is_empty());
}

#[test]
fn pop_takes_the_smallest_f_first() {
    let r = root();
    let a = r.move_zero(Direction::Up).unwrap();
    let b = r.move_zero(Direction::Down).unwrap();
    let c = r.move_zero(Direction::Left).unwrap();
    let mut open = OpenSet::new();
    open.push(node(a, r, 1, 5));
    open.push(node(b, r, 1, 2));
    open.push(node(c, r, 1, 3));
    assert_eq!(open.pop(), Some(node(b, r, 1, 2)));
    assert_eq!(open.pop(), Some(node(c, r, 1, 3)));
    assert_eq!(open.pop(), Some(node(a, r, 1, 5)));
    assert_eq!(open.pop(), None);
}

#[test]
fn equal_f_leaves_in_push_order() {
    let r = root();
    let mut open = OpenSet::new();
    let mut pushed = Vec::new();
    for d in Direction::all() {
        let s = r.move_zero(d).unwrap();
        pushed.push(s);
        open.push(node(s, r, 2, 4));
    }
    // Same priority reached with another split between g and h.
    let far = pushed[0].move_zero(Direction::Left).unwrap();
    open.push(node(far, pushed[0], 3, 3));
    pushed.push(far);
    for s in pushed {
        assert_eq!(open.pop().map(|n| n.puzzle), Some(s));
    }
    assert_eq!(open.pop(), None);
}

#[test]
fn second_push_with_larger_g_is_passed_over() {
    let r = root();
    let a = r.move_zero(Direction::Up).unwrap();
    let other = r.move_zero(Direction::Down).unwrap();
    let mut open = OpenSet::new();
    open.push(node(a, r, 3, 1));
    open.push(node(a, other, 5, 1));
    assert_eq!(open.iter(), vec![(a, (r, 3))]);
    assert_eq!(open.pop(), Some(node(a, r, 3, 1)));
    assert_eq!(open.pop(), None);
}

#[test]
fn second_push_with_smaller_g_replaces_the_entry() {
    let r = root();
    let a = r.move_zero(Direction::Up).unwrap();
    let other = r.move_zero(Direction::Down).unwrap();
    let mut open = OpenSet::new();
    open.push(node(a, r, 5, 1));
    open.push(node(a, other, 3, 1));
    assert_eq!(open.iter(), vec![(a, (other, 3))]);
    assert_eq!(open.pop(), Some(node(a, other, 3, 1)));
    // The record of the first push is stale and is thrown away.
    assert_eq!(open.pop(), None);
}

#[test]
fn second_push_with_equal_g_keeps_the_first_parent() {
    let r = root();
    let a = r.move_zero(Direction::Up).unwrap();
    let other = r.move_zero(Direction::Down).unwrap();
    let mut open = OpenSet::new();
    open.push(node(a, r, 4, 1));
    open.push(node(a, other, 4, 1));
    assert_eq!(open.pop(), Some(node(a, r, 4, 1)));
    assert_eq!(open.pop(), None);
}

#[test]
fn stale_record_with_smaller_f_is_skipped() {
    let r = root();
    let a = r.move_zero(Direction::Up).unwrap();
    let b = r.move_zero(Direction::Down).unwrap();
    let mut open = OpenSet::new();
    // The record of the first push has the smallest f, but its g is not
    // that of the live entry once the second push has come.
    open.push(node(a, r, 6, 0));
    open.push(node(a, b, 2, 9));
    open.push(node(b, r, 1, 8));
    assert_eq!(open.pop(), Some(node(b, r, 1, 8)));
    assert_eq!(open.pop(), Some(node(a, b, 2, 9)));
    assert_eq!(open.pop(), None);
}

#[test]
fn iter_lists_every_open_state_once() {
    let r = root();
    let mut open = OpenSet::new();
    let mut expect = Vec::new();
    for d in Direction::all() {
        let s = r.move_zero(d).unwrap();
        open.push(node(s, r, 1, 0));
        open.push(node(s, r, 2, 0));
        expect.push((s, (r, 1)));
    }
    let first = open.pop().unwrap();
    expect.retain(|e| e.0 != first.puzzle);
    let mut listed = open.iter();
    listed.sort_by_key(|e| e.0.key());
    expect.sort_by_key(|e| e.0.key());
    assert_eq!(listed, expect);
}

#[test]
fn many_pushes_leave_sorted() {
    let mut open = OpenSet::new();
    let mut s = root();
    let mut seen = vec![s];
    let walk = [Direction::Up, Direction::Left, Direction::Down, Direction::Down, Direction::Right, Direction::Right, Direction::Up, Direction::Up, Direction::Left];
    for (i, d) in walk.iter().enumerate() {
        let next = s.move_zero(*d).unwrap();
        if !seen.contains(&next) {
            seen.push(next);
            open.push(node(next, s, ((i * 7) % 5) as i32, ((i * 3) % 4) as i32));
        }
        s = next;
    }
    let mut last = i32::MIN;
    let mut count = 0;
    while let Some(n) = open.pop() {
        assert!(n.g + n.h >= last);
        last = n.g + n.h;
        count += 1;
    }
    assert_eq!(count, seen.len() - 1);
}
