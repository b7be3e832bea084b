use eight_puzzle::closed::{MapSearchTree, SearchTree};
use eight_puzzle::heuristic::BfsHeuristic;
use eight_puzzle::paint::{map_color, Color, DrawCommand, ElementPainter, SmallPuzzleCenter};
use eight_puzzle::puzzle::{Direction, Puzzle};
use eight_puzzle::search::solve_from_initial;
use eight_puzzle::sizer::PuzzleSizer;
use eight_puzzle::tree::{DrawTree, Visibility};
use eight_puzzle::view::IntRectBound;

fn root() -> Puzzle {
    Puzzle::new([[1, 2, 3], [8, 0, 4], [7, 6, 5]])
}

/// The root with two children, the second of which has two children.
fn family() -> (Vec<(Puzzle, (Puzzle, i32))>, [Puzzle; 5]) {
    let r = root();
    let a = r.move_zero(Direction::Up).unwrap();
    let b = r.move_zero(Direction::Down).unwrap();
    let b1 = b.move_zero(Direction::Left).unwrap();
    let b2 = b.move_zero(Direction::Right).unwrap();
    let entries = vec![
        (b2, (b, 2)),
        (r, (r, 0)),
        (a, (r, 1)),
        (b1, (b, 2)),
        (b, (r, 1)),
    ];
    (entries, [r, a, b, b2, b1])
}

#[test]
fn build_puts_the_nodes_level_by_level() {
    let (entries, s) = family();
    let tree = DrawTree::build(&entries, &s[0], &s[4]).unwrap();
    let puzzles: Vec<Puzzle> = tree.nodes.iter().map(|n| n.puzzle).collect();
    assert_eq!(puzzles, vec![s[0], s[1], s[2], s[3], s[4]]);
    let depths: Vec<usize> = tree.nodes.iter().map(|n| n.depth).collect();
    assert_eq!(depths, vec![0, 1, 1, 2, 2]);
    let parents: Vec<usize> = tree.nodes.iter().map(|n| n.parent).collect();
    assert_eq!(parents, vec![0, 0, 0, 2, 2]);
    let firsts: Vec<usize> = tree.nodes.iter().map(|n| n.first_child).collect();
    assert_eq!(firsts, vec![1, 3, 3, 5, 5]);
    let counts: Vec<usize> = tree.nodes.iter().map(|n| n.child_count).collect();
    assert_eq!(counts, vec![2, 0, 2, 0, 0]);
    assert!(tree.coord_built_for.is_none());
}

#[test]
fn build_marks_the_way_to_the_path_end() {
    let (entries, s) = family();
    let tree = DrawTree::build(&entries, &s[0], &s[4]).unwrap();
    assert_eq!(tree.goal, Some(4));
    let marks: Vec<bool> = tree.nodes.iter().map(|n| n.on_path).collect();
    assert_eq!(marks, vec![true, false, true, false, true]);
    let tree = DrawTree::build(&entries, &s[0], &s[1]).unwrap();
    assert_eq!(tree.goal, Some(1));
    let marks: Vec<bool> = tree.nodes.iter().map(|n| n.on_path).collect();
    assert_eq!(marks, vec![true, true, false, false, false]);
    let tree = DrawTree::build(&entries, &s[0], &s[0]).unwrap();
    assert_eq!(tree.goal, Some(0));
    let marks: Vec<bool> = tree.nodes.iter().map(|n| n.on_path).collect();
    assert_eq!(marks, vec![true, false, false, false, false]);
}

#[test]
fn build_marks_nothing_without_the_path_end() {
    let (entries, s) = family();
    let absent = s[1].move_zero(Direction::Left).unwrap();
    let tree = DrawTree::build(&entries, &s[0], &absent).unwrap();
    assert_eq!(tree.goal, None);
    assert!(tree.nodes.iter().all(|n| !n.on_path));
}

#[test]
fn build_leaves_out_what_does_not_hang_on_the_root() {
    let (mut entries, s) = family();
    let stray = s[1].move_zero(Direction::Left).unwrap();
    let stray_child = stray.move_zero(Direction::Down).unwrap();
    entries.push((stray_child, (stray, 5)));
    let tree = DrawTree::build(&entries, &s[0], &stray_child).unwrap();
    assert_eq!(tree.nodes.len(), 5);
    assert_eq!(tree.goal, None);
    assert!(tree.nodes.iter().all(|n| !n.on_path));
}

#[test]
fn build_of_an_empty_record_is_the_root_alone() {
    let tree = DrawTree::build(&Vec::new(), &root(), &root()).unwrap();
    assert_eq!(tree.nodes.len(), 1);
    assert_eq!(tree.nodes[0].puzzle, root());
    assert_eq!(tree.nodes[0].child_count, 0);
    assert!(tree.nodes[0].on_path);
}

#[test]
fn build_refuses_a_state_with_two_parents() {
    let (mut entries, s) = family();
    entries.push((s[4], (s[1], 2)));
    assert!(DrawTree::build(&entries, &s[0], &s[4]).is_none());
}

#[test]
fn build_refuses_a_parent_for_the_root() {
    let (mut entries, s) = family();
    entries.push((s[0], (s[4], 3)));
    assert!(DrawTree::build(&entries, &s[0], &s[4]).is_none());
}

#[test]
fn tree_of_a_search_has_the_solution_marked() {
    let goal = root();
    let initial = Puzzle::new([[1, 3, 4], [8, 2, 5], [0, 7, 6]]);
    let mut record = MapSearchTree::new(&goal, &initial);
    solve_from_initial::<MapSearchTree, BfsHeuristic>(initial, goal, &mut record);
    let tree = DrawTree::new_from_map_search_tree(&record, record.goal()).unwrap();
    assert_eq!(tree.nodes.len(), record.len());
    let g = tree.goal.unwrap();
    assert_eq!(tree.nodes[g].puzzle, goal);
    assert_eq!(tree.nodes[g].depth, 6);
    let marked: Vec<usize> = (0..tree.nodes.len()).filter(|&i| tree.nodes[i].on_path).collect();
    assert_eq!(marked.len(), 7);
    for (d, &i) in marked.iter().enumerate() {
        assert_eq!(tree.nodes[i].depth, d);
        if i != 0 {
            assert!(tree.nodes[tree.nodes[i].parent].on_path);
        }
    }
    for (i, n) in tree.nodes.iter().enumerate() {
        assert_eq!(record.get(&n.puzzle).unwrap().1 as usize, n.depth);
        for c in n.first_child..n.first_child + n.child_count {
            assert_eq!(tree.nodes[c].parent, i);
            assert_eq!(record.get(&tree.nodes[c].puzzle).unwrap().0, n.puzzle);
        }
    }
}

#[test]
fn sizer_gives_cell_and_offset() {
    assert_eq!(PuzzleSizer { scale: 1 }.puzzle_cell(), 1);
    assert_eq!(PuzzleSizer { scale: 1 }.puzzle_center_offset(), 1);
    assert_eq!(PuzzleSizer { scale: 2 }.puzzle_cell(), 3);
    assert_eq!(PuzzleSizer { scale: 2 }.puzzle_center_offset(), 4);
    assert_eq!(PuzzleSizer { scale: 3 }.puzzle_cell(), 5);
    assert_eq!(PuzzleSizer { scale: 3 }.puzzle_center_offset(), 7);
    assert!(PuzzleSizer { scale: 1 }.is_valid());
    assert!(!PuzzleSizer { scale: 0 }.is_valid());
    assert!(!PuzzleSizer { scale: -3 }.is_valid());
    assert!(PuzzleSizer { scale: 16_777_216 }.is_valid());
    assert!(!PuzzleSizer { scale: 16_777_217 }.is_valid());
}

fn extents(tree: &DrawTree) -> Vec<(i32, i32, i32)> {
    tree.nodes.iter().map(|n| (n.min_x, n.center_x, n.max_x)).collect()
}

#[test]
fn layout_at_scale_one() {
    let (entries, s) = family();
    let mut tree = DrawTree::build(&entries, &s[0], &s[4]).unwrap();
    assert!(tree.build_coord(&PuzzleSizer { scale: 1 }));
    assert_eq!(tree.coord_built_for, Some(PuzzleSizer { scale: 1 }));
    assert_eq!(
        extents(&tree),
        vec![(-5, 0, 5), (-5, -4, -3), (-1, 2, 5), (-1, 0, 1), (3, 4, 5)]
    );
}

#[test]
fn layout_at_scale_two() {
    let (entries, s) = family();
    let mut tree = DrawTree::build(&entries, &s[0], &s[4]).unwrap();
    assert!(tree.build_coord(&PuzzleSizer { scale: 2 }));
    // A leaf is 9 wide, the gap 3: the second child takes 21, the root 33.
    assert_eq!(
        extents(&tree),
        vec![(-16, 0, 16), (-16, -12, -8), (-4, 6, 16), (-4, 0, 4), (8, 12, 16)]
    );
}

#[test]
fn layout_centres_the_parent_over_its_children() {
    let (entries, s) = family();
    let mut tree = DrawTree::build(&entries, &s[0], &s[4]).unwrap();
    for scale in [1, 2, 3, 10] {
        assert!(tree.build_coord(&PuzzleSizer { scale }));
        let gap = 2 * scale - 1;
        for p in 0..tree.nodes.len() {
            let n = &tree.nodes[p];
            assert_eq!(n.center_x - n.min_x, n.max_x - n.center_x);
            if n.child_count > 0 {
                let first = &tree.nodes[n.first_child];
                let last = &tree.nodes[n.first_child + n.child_count - 1];
                assert_eq!(first.min_x, n.min_x);
                assert_eq!(last.max_x, n.max_x);
                if first.max_x - first.min_x == last.max_x - last.min_x {
                    assert_eq!(2 * n.center_x, first.center_x + last.center_x);
                }
                for c in n.first_child + 1..n.first_child + n.child_count {
                    assert_eq!(tree.nodes[c].min_x - tree.nodes[c - 1].max_x, gap + 1);
                }
            }
        }
    }
    // Children of one width: the parent stands midway between their centres.
    assert_eq!(2 * tree.nodes[2].center_x, tree.nodes[3].center_x + tree.nodes[4].center_x);
}

#[test]
fn layout_is_refused_for_a_scale_out_of_range() {
    let (entries, s) = family();
    let mut tree = DrawTree::build(&entries, &s[0], &s[4]).unwrap();
    assert!(!tree.build_coord(&PuzzleSizer { scale: 0 }));
    assert!(tree.coord_built_for.is_none());
    assert_eq!(extents(&tree), vec![(0, 0, 0); 5]);
    assert!(tree.build_coord(&PuzzleSizer { scale: 2 }));
    assert!(!tree.build_coord(&PuzzleSizer { scale: 20_000_000 }));
    assert_eq!(tree.coord_built_for, Some(PuzzleSizer { scale: 2 }));
    assert_eq!(tree.nodes[0].max_x, 16);
}

#[test]
fn layout_is_refused_where_the_tree_is_too_wide() {
    // A root with forty children at the largest scale is wider than the
    // coordinate type allows.
    let goal = root();
    let initial = Puzzle::new([[1, 3, 4], [8, 2, 5], [0, 7, 6]]);
    let mut record = MapSearchTree::new(&goal, &initial);
    solve_from_initial::<MapSearchTree, BfsHeuristic>(initial, goal, &mut record);
    let mut tree = DrawTree::new_from_map_search_tree(&record, &goal).unwrap();
    assert!(!tree.build_coord(&PuzzleSizer { scale: 16_777_216 }));
    assert!(tree.coord_built_for.is_none());
    assert!(tree.nodes.iter().all(|n| n.min_x == 0 && n.max_x == 0 && n.center_x == 0));
    assert!(tree.build_coord(&PuzzleSizer { scale: 2 }));
}

fn bound(left: i32, right: i32) -> IntRectBound {
    IntRectBound { left, top: 0, right, bottom: 1000 }
}

fn views(tree: &DrawTree) -> Vec<Visibility> {
    tree.nodes.iter().map(|n| n.visibility).collect()
}

#[test]
fn visibility_full_when_the_window_is_inside() {
    let (entries, s) = family();
    let mut tree = DrawTree::build(&entries, &s[0], &s[4]).unwrap();
    assert!(tree.build_coord(&PuzzleSizer { scale: 1 }));
    tree.update_visibility(&bound(0, 100), (50, 0));
    // The root is in full view: its children are not looked at.
    assert_eq!(views(&tree), vec![Visibility::Full, Visibility::Hidden, Visibility::Hidden, Visibility::Hidden, Visibility::Hidden]);
    // Just inside: the window is [0, 10].
    tree.update_visibility(&bound(0, 10), (5, 0));
    assert_eq!(tree.nodes[0].visibility, Visibility::Full);
}

#[test]
fn visibility_partial_goes_down_to_the_children() {
    let (entries, s) = family();
    let mut tree = DrawTree::build(&entries, &s[0], &s[4]).unwrap();
    assert!(tree.build_coord(&PuzzleSizer { scale: 1 }));
    // The viewport [0, 100] with the root's window at [-4, 6]: the first
    // child's window [-4, -2] is out of sight, the second's [0, 6] in full view.
    tree.update_visibility(&bound(0, 100), (1, 0));
    assert_eq!(views(&tree), vec![Visibility::Partial, Visibility::Hidden, Visibility::Full, Visibility::Hidden, Visibility::Hidden]);
    assert_eq!(tree.nodes[1].draw_x, -20);
    // One point of the first child's window is in the viewport.
    tree.update_visibility(&bound(0, 100), (3, 0));
    assert_eq!(tree.nodes[0].visibility, Visibility::Partial);
    assert_eq!(tree.nodes[1].visibility, Visibility::Partial);
    assert_eq!(tree.nodes[2].visibility, Visibility::Full);
}

#[test]
fn visibility_none_pins_the_node_beyond_the_nearer_edge() {
    let (entries, s) = family();
    let mut tree = DrawTree::build(&entries, &s[0], &s[4]).unwrap();
    assert!(tree.build_coord(&PuzzleSizer { scale: 1 }));
    tree.update_visibility(&bound(0, 100), (200, 0));
    assert_eq!(tree.nodes[0].visibility, Visibility::Hidden);
    assert_eq!(tree.nodes[0].draw_x, 120);
    tree.update_visibility(&bound(0, 100), (-6, 0));
    assert_eq!(tree.nodes[0].visibility, Visibility::Hidden);
    assert_eq!(tree.nodes[0].draw_x, -20);
    // The window ends on the left edge of the viewport: one point is in view.
    tree.update_visibility(&bound(0, 100), (-5, 0));
    assert_eq!(tree.nodes[0].visibility, Visibility::Partial);
    // The window begins on the right edge of the viewport.
    tree.update_visibility(&bound(0, 100), (105, 0));
    assert_eq!(tree.nodes[0].visibility, Visibility::Partial);
    tree.update_visibility(&bound(0, 100), (106, 0));
    assert_eq!(tree.nodes[0].visibility, Visibility::Hidden);
}

fn painter(left: i32, right: i32, bottom: i32, offset: (i32, i32), scale: i32) -> ElementPainter {
    ElementPainter {
        bound: IntRectBound { left, top: 0, right, bottom },
        offset,
        sizer: PuzzleSizer { scale },
    }
}

#[test]
fn painter_columns_and_rows() {
    let p = painter(10, 100, 50, (20, 5), 1);
    assert!(p.is_valid());
    assert_eq!(p.get_draw_x(0), 20);
    assert_eq!(p.get_draw_x(80), 100);
    assert_eq!(p.get_draw_x(81), 100);
    assert_eq!(p.get_draw_x(-10), 10);
    assert_eq!(p.get_draw_x(-11), 10);
    assert_eq!(p.get_draw_x(i32::MAX), 100);
    assert_eq!(p.get_draw_x(i32::MIN), 10);
    // A level is 8 high at scale 1, and the first row lies 1 below the offset.
    assert_eq!(p.get_draw_y(0), Some(6));
    assert_eq!(p.get_draw_y(1), Some(14));
    assert_eq!(p.get_draw_y(5), Some(46));
    assert_eq!(p.get_draw_y(6), None);
    assert_eq!(p.get_draw_y(usize::MAX), None);
    let q = painter(10, 100, 54, (20, 5), 3);
    // At scale 3 a cell is 5, a level 36, the offset to the centre 7.
    assert_eq!(q.get_draw_y(0), Some(12));
    assert_eq!(q.get_draw_y(1), Some(48));
    assert_eq!(q.get_draw_y(2), None);
    assert!(!painter(10, 100, 50, (20, 5), 0).is_valid());
    assert!(!painter(10, 2_000_000_000, 50, (20, 5), 1).is_valid());
}

#[test]
fn painter_lines() {
    let p = painter(0, 100, 100, (0, 0), 2);
    let rect = |x, y, width, height, color| DrawCommand::Rectangle { x, y, width, height, color };
    assert_eq!(p.draw_line_up(7, 50, false), rect(7, 40, 1, 3, Color::Black));
    assert_eq!(p.draw_line_up(7, 50, true), rect(7, 40, 1, 3, Color::Red));
    assert_eq!(p.draw_line_down(7, 50, true), rect(7, 58, 1, 3, Color::Red));
    assert_eq!(p.draw_line_across(3, 9, 50), rect(3, 61, 7, 1, Color::Black));
    assert_eq!(p.draw_line_across_on_path(9, 50, 3), rect(3, 61, 7, 1, Color::Red));
    assert_eq!(p.draw_line_across_on_path(3, 50, 9), rect(3, 61, 7, 1, Color::Red));
    assert_eq!(p.draw_line_across_on_path(4, 50, 4), rect(4, 61, 1, 1, Color::Red));
}

#[test]
fn tile_colours() {
    assert_eq!(map_color(1), Color::DarkRed);
    assert_eq!(map_color(2), Color::DarkBlue);
    assert_eq!(map_color(3), Color::DarkGreen);
    assert_eq!(map_color(4), Color::DarkCyan);
    assert_eq!(map_color(5), Color::DarkOrange);
    assert_eq!(map_color(6), Color::DarkPurple);
    assert_eq!(map_color(7), Color::DarkBrown);
    assert_eq!(map_color(8), Color::DarkGoldenrod);
    assert_eq!(map_color(0), Color::Black);
    assert_eq!(map_color(9), Color::Black);
}

fn board_commands(puzzle: &Puzzle, x: i32, y: i32, cell: i32, marked: bool) -> Vec<DrawCommand> {
    let mut out = Vec::new();
    for i in 0..3 {
        for j in 0..3 {
            let v = puzzle.get_value(i, j);
            if v != 0 {
                out.push(DrawCommand::Rectangle {
                    x: x - cell * 3 / 2 + j as i32 * cell,
                    y: y - cell * 3 / 2 + i as i32 * cell,
                    width: cell,
                    height: cell,
                    color: map_color(v),
                });
            }
        }
    }
    let (off, color) = if marked { (2, Color::Red) } else { (1, Color::Black) };
    out.push(DrawCommand::RectangleLines {
        x: x - cell * 3 / 2 - off,
        y: y - cell * 3 / 2 - off,
        width: 2 * off + cell * 3,
        height: 2 * off + cell * 3,
        color,
    });
    out
}

#[test]
fn small_board_is_tiles_then_frame() {
    let mut out = Vec::new();
    let center = SmallPuzzleCenter { x: 50, y: 11, cell_size: 1 };
    eight_puzzle::paint::draw_small_puzzle(&mut out, &root(), center, true);
    let rect = |x, y, color| DrawCommand::Rectangle { x, y, width: 1, height: 1, color };
    assert_eq!(
        out,
        vec![
            rect(49, 10, Color::DarkRed),
            rect(50, 10, Color::DarkBlue),
            rect(51, 10, Color::DarkGreen),
            rect(49, 11, Color::DarkGoldenrod),
            rect(51, 11, Color::DarkCyan),
            rect(49, 12, Color::DarkBrown),
            rect(50, 12, Color::DarkPurple),
            rect(51, 12, Color::DarkOrange),
            DrawCommand::RectangleLines { x: 47, y: 8, width: 7, height: 7, color: Color::Red },
        ]
    );
    let mut plain = Vec::new();
    let center = SmallPuzzleCenter { x: 50, y: 11, cell_size: 3 };
    eight_puzzle::paint::draw_small_puzzle(&mut plain, &root(), center, false);
    assert_eq!(plain, board_commands(&root(), 50, 11, 3, false));
    assert_eq!(
        plain[8],
        DrawCommand::RectangleLines { x: 45, y: 6, width: 11, height: 11, color: Color::Black }
    );
}

#[test]
fn draw_of_a_single_node() {
    let mut tree = DrawTree::build(&Vec::new(), &root(), &root()).unwrap();
    let p = painter(0, 100, 100, (50, 10), 1);
    let commands = tree.draw(&p);
    assert_eq!(commands, board_commands(&root(), 50, 11, 1, true));
    assert_eq!(tree.nodes[0].visibility, Visibility::Full);
    assert_eq!(tree.nodes[0].draw_x, 50);
}

#[test]
fn draw_of_a_family_in_full_view() {
    let (entries, s) = family();
    let mut tree = DrawTree::build(&entries, &s[0], &s[4]).unwrap();
    let p = painter(0, 100, 100, (50, 10), 1);
    let commands = tree.draw(&p);
    let rect = |x, y, width, height, color| DrawCommand::Rectangle { x, y, width, height, color };
    let mut expect = Vec::new();
    // First the boards, from the top down, the children of a node after it.
    expect.extend(board_commands(&s[0], 50, 11, 1, true));
    expect.extend(board_commands(&s[1], 46, 19, 1, false));
    expect.extend(board_commands(&s[2], 52, 19, 1, true));
    expect.extend(board_commands(&s[3], 50, 27, 1, false));
    expect.extend(board_commands(&s[4], 54, 27, 1, true));
    // Then the lines: of the root ...
    expect.push(rect(50, 14, 1, 1, Color::Red));
    expect.push(rect(46, 15, 7, 1, Color::Black));
    // ... of its first child ...
    expect.push(rect(46, 16, 1, 1, Color::Black));
    // ... of its second child and of the children of that ...
    expect.push(rect(52, 16, 1, 1, Color::Red));
    expect.push(rect(52, 22, 1, 1, Color::Red));
    expect.push(rect(50, 23, 5, 1, Color::Black));
    expect.push(rect(50, 24, 1, 1, Color::Black));
    expect.push(rect(54, 24, 1, 1, Color::Red));
    expect.push(rect(52, 23, 3, 1, Color::Red));
    // ... and last the marked part of the root's bar.
    expect.push(rect(50, 15, 3, 1, Color::Red));
    assert_eq!(commands, expect);
    assert!(tree.nodes.iter().all(|n| n.visibility == Visibility::Full));
    let columns: Vec<i32> = tree.nodes.iter().map(|n| n.draw_x).collect();
    assert_eq!(columns, vec![50, 46, 52, 50, 54]);
}

#[test]
fn draw_stops_at_the_bottom_of_the_viewport() {
    let (entries, s) = family();
    let mut tree = DrawTree::build(&entries, &s[0], &s[4]).unwrap();
    // The second level lies at row 19, below the bottom at 18.
    let p = painter(0, 100, 18, (50, 10), 1);
    let commands = tree.draw(&p);
    let rect = |x, y, width, height, color| DrawCommand::Rectangle { x, y, width, height, color };
    let mut expect = board_commands(&s[0], 50, 11, 1, true);
    expect.push(rect(50, 14, 1, 1, Color::Red));
    // The children were not drawn: they keep the column they had, and the
    // bars of the root run to that column.
    expect.push(rect(0, 15, 1, 1, Color::Black));
    expect.push(rect(0, 15, 51, 1, Color::Red));
    assert_eq!(commands, expect);
    assert!(tree.nodes[1..].iter().all(|n| n.visibility == Visibility::Hidden && n.draw_x == 0));
}

#[test]
fn draw_clips_what_is_out_of_sight() {
    let (entries, s) = family();
    let mut tree = DrawTree::build(&entries, &s[0], &s[4]).unwrap();
    // Windows: root [-4, 6], first child [-4, -2], second child [0, 6].
    let p = painter(0, 100, 100, (1, 10), 1);
    let commands = tree.draw(&p);
    let rect = |x, y, width, height, color| DrawCommand::Rectangle { x, y, width, height, color };
    let mut expect = Vec::new();
    expect.extend(board_commands(&s[0], 1, 11, 1, true));
    expect.extend(board_commands(&s[2], 3, 19, 1, true));
    expect.extend(board_commands(&s[3], 1, 27, 1, false));
    expect.extend(board_commands(&s[4], 5, 27, 1, true));
    expect.push(rect(1, 14, 1, 1, Color::Red));
    // The bar of the root reaches out to the child that is out of sight.
    expect.push(rect(-20, 15, 24, 1, Color::Black));
    expect.push(rect(3, 16, 1, 1, Color::Red));
    expect.push(rect(3, 22, 1, 1, Color::Red));
    expect.push(rect(1, 23, 5, 1, Color::Black));
    expect.push(rect(1, 24, 1, 1, Color::Black));
    expect.push(rect(5, 24, 1, 1, Color::Red));
    expect.push(rect(3, 23, 3, 1, Color::Red));
    expect.push(rect(1, 15, 3, 1, Color::Red));
    assert_eq!(commands, expect);
    assert_eq!(
        views(&tree),
        vec![Visibility::Partial, Visibility::Hidden, Visibility::Full, Visibility::Full, Visibility::Full]
    );
}

#[test]
fn draw_of_a_tree_too_wide_draws_nothing() {
    let goal = root();
    let initial = Puzzle::new([[1, 3, 4], [8, 2, 5], [0, 7, 6]]);
    let mut record = MapSearchTree::new(&goal, &initial);
    solve_from_initial::<MapSearchTree, BfsHeuristic>(initial, goal, &mut record);
    let mut tree = DrawTree::new_from_map_search_tree(&record, &goal).unwrap();
    let wide = painter(0, 100, 100, (50, 10), 16_777_216);
    assert!(wide.is_valid());
    assert!(tree.draw(&wide).is_empty());
    assert!(tree.coord_built_for.is_none());
    assert!(tree.nodes.iter().all(|n| n.visibility == Visibility::Hidden && n.draw_x == 0));
    let ok = painter(0, 100, 100, (50, 10), 1);
    assert!(!tree.draw(&ok).is_empty());
    assert_eq!(tree.coord_built_for, Some(PuzzleSizer { scale: 1 }));
}
