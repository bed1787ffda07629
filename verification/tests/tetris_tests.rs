use tetrust::board::Board;
use tetrust::search::find;
use tetrust::tetris::{Tetris, Undroppable};

fn empty_rows() -> Vec<Vec<u8>> {
    vec![vec![0u8; 10]; 22]
}

fn game_with(rows: Vec<Vec<u8>>, shape: Option<u8>, center: Option<(i64, i64)>) -> Tetris {
    Tetris { board: Board::from(rows), current_shape: shape, center, current_piece: None, score: 0 }
}

/// A T piece placed at column 3 with shape number 1.
fn t_piece_game() -> (Tetris, Vec<(usize, usize)>) {
    let mut t = game_with(empty_rows(), Some(1), None);
    let pts = t.insert_shape_at([[0u8, 1, 0], [1, 1, 1]], 3);
    (t, pts)
}

#[test]
fn tetris_new_is_empty() {
    let t = Tetris::new();
    assert_eq!(t.board.get_matrix(), empty_rows());
    assert!(t.current_shape.is_none());
    assert!(t.center.is_none());
    assert!(t.current_piece.is_none());
}

#[test]
fn set_line_to_sets_the_row() {
    let mut t = Tetris::new();
    t.set_line_to(4, 3);
    let m = t.board.get_matrix();
    assert_eq!(m[4], vec![3u8; 10]);
    assert_eq!(m[3], vec![0u8; 10]);
    assert_eq!(m[5], vec![0u8; 10]);
}

#[test]
fn check_filled_lines_finds_the_full_rows() {
    let mut rows = empty_rows();
    rows[3] = vec![1u8; 10];
    rows[21] = vec![2u8; 10];
    rows[10] = vec![1u8; 10];
    rows[10][9] = 0;
    let t = game_with(rows, None, None);
    assert_eq!(t.check_filled_lines(), vec![21, 3]);
}

#[test]
fn check_filled_lines_keeps_the_order_of_the_scan() {
    let mut rows = empty_rows();
    rows[3] = vec![1u8; 10];
    rows[10] = vec![4u8; 10];
    rows[21] = vec![2u8; 10];
    let t = game_with(rows, None, None);
    assert_eq!(t.check_filled_lines(), vec![21, 10, 3]);
}

#[test]
fn check_filled_lines_empty_board() {
    let t = Tetris::new();
    assert!(t.check_filled_lines().is_empty());
}

#[test]
fn set_points_to_sets_each_point() {
    let mut t = Tetris::new();
    t.set_points_to(&vec![(0, 0), (5, 9), (21, 3)], 6);
    let m = t.board.get_matrix();
    assert_eq!(m[0][0], 6);
    assert_eq!(m[5][9], 6);
    assert_eq!(m[21][3], 6);
    assert_eq!(m[1][1], 0);
}

#[test]
fn dimensions_and_shape_length() {
    let pts = vec![(3, 4), (1, 7), (5, 2)];
    assert_eq!(Tetris::dimensions(&pts), (1, 2, 5, 7));
    assert_eq!(Tetris::shape_length(&pts), 6);
    assert_eq!(Tetris::shape_length(&vec![(2, 2)]), 1);
}

#[test]
fn flood_fill_on_empty_cell_adds_nothing() {
    let t = Tetris::new();
    let mut pts = vec![(9, 9)];
    t.flood_fill((4, 4), &mut pts);
    assert_eq!(pts, vec![(9, 9)]);
}

#[test]
fn flood_fill_on_lone_cell_adds_it() {
    let mut rows = empty_rows();
    rows[4][4] = 2;
    let t = game_with(rows, None, None);
    let mut pts = vec![];
    t.flood_fill((4, 4), &mut pts);
    assert_eq!(pts, vec![(4, 4)]);
}

#[test]
fn insert_shape_at_places_the_t() {
    let (t, pts) = t_piece_game();
    assert_eq!(pts, vec![(0, 4), (1, 3), (1, 4), (1, 5)]);
    assert_eq!(t.center, Some((2, 8)));
    let m = t.board.get_matrix();
    assert_eq!(m[0], vec![0, 0, 0, 0, 1, 0, 0, 0, 0, 0]);
    assert_eq!(m[1], vec![0, 0, 0, 1, 1, 1, 0, 0, 0, 0]);
}

#[test]
fn insert_shape_keeps_the_shape_in_the_field() {
    for _ in 0..50 {
        let mut t = game_with(empty_rows(), Some(7), None);
        let pts = t.insert_shape([[1u8, 1, 1, 1]]);
        assert_eq!(pts.len(), 4);
        let col = pts[0].1;
        assert!(col <= 6);
        assert_eq!(pts, vec![(0, col), (0, col + 1), (0, col + 2), (0, col + 3)]);
        assert_eq!(t.center, Some((3, 3 + 2 * col as i64)));
    }
}

#[test]
fn insert_random_shape_places_four_cells() {
    for _ in 0..50 {
        let mut t = Tetris::new();
        let pts = t.insert_random_shape();
        let n = t.current_shape.unwrap();
        assert!((1..=7).contains(&n));
        assert_eq!(pts.len(), 4);
        let m = t.board.get_matrix();
        for p in &pts {
            assert!(p.0 < 2 && p.1 < 10);
            assert_eq!(m[p.0][p.1], n);
        }
    }
}

#[test]
fn insert_shape_number_out_of_range_places_nothing() {
    let mut t = Tetris::new();
    let pts = t.insert_shape_number(9);
    assert!(pts.is_empty());
    assert_eq!(t.current_shape, Some(9));
    assert_eq!(t.board.get_matrix(), empty_rows());
}

#[test]
fn insert_shape_number_square() {
    let mut t = Tetris::new();
    let pts = t.insert_shape_number(6);
    let col = pts[0].1;
    assert_eq!(pts, vec![(0, col), (0, col + 1), (1, col), (1, col + 1)]);
    assert_eq!(t.center, Some((1, 1 + 2 * col as i64)));
}

#[test]
fn movable_to_checks_the_leading_cells() {
    let (mut t, pts) = t_piece_game();
    assert!(t.movable_to(&pts, 'D'));
    assert!(t.movable_to(&pts, 'R'));
    assert!(t.movable_to(&pts, 'L'));
    t.board.set_element(2, 3, 5);
    assert!(!t.movable_to(&pts, 'D'));
    assert!(t.movable_to(&vec![], 'X'));
}

#[test]
fn movable_to_blocked_by_walls() {
    let mut t = Tetris::new();
    assert!(!t.movable_to(&vec![(21, 0)], 'D'));
    assert!(!t.movable_to(&vec![(5, 0)], 'L'));
    assert!(!t.movable_to(&vec![(5, 9)], 'R'));
    assert!(!t.movable_to(&vec![(21, 50)], 'D'));
}

#[test]
fn move_to_down_moves_the_piece() {
    let (mut t, pts) = t_piece_game();
    let mut piece = pts.clone();
    let r = t.move_to(&mut piece, 'D');
    assert_eq!(piece, pts);
    let moved = r.unwrap();
    assert_eq!(moved, vec![(1, 4), (2, 3), (2, 4), (2, 5)]);
    assert_eq!(t.center, Some((4, 8)));
    let m = t.board.get_matrix();
    assert_eq!(m[0], vec![0u8; 10]);
    assert_eq!(m[1], vec![0, 0, 0, 0, 1, 0, 0, 0, 0, 0]);
    assert_eq!(m[2], vec![0, 0, 0, 1, 1, 1, 0, 0, 0, 0]);
}

#[test]
fn move_to_left_and_right() {
    let (mut t, pts) = t_piece_game();
    let mut piece = pts.clone();
    let left = t.move_to(&mut piece, 'L').unwrap();
    assert_eq!(left, vec![(0, 3), (1, 2), (1, 3), (1, 4)]);
    assert_eq!(t.center, Some((2, 6)));
    let mut piece = left.clone();
    let back = t.move_to(&mut piece, 'R').unwrap();
    assert_eq!(back, pts);
    assert_eq!(t.center, Some((2, 8)));
}

#[test]
fn move_right_then_left_restores_the_field() {
    let mut rows = empty_rows();
    rows[1][7] = 4;
    rows[20] = vec![2u8; 10];
    let mut t = game_with(rows.clone(), Some(1), None);
    let pts = t.insert_shape_at([[0u8, 1, 0], [1, 1, 1]], 2);
    let before = t.board.get_matrix();
    let mut piece = pts.clone();
    let right = t.move_to(&mut piece, 'R').unwrap();
    let mut piece = right.clone();
    let left = t.move_to(&mut piece, 'L').unwrap();
    assert_eq!(left, pts);
    assert_eq!(t.board.get_matrix(), before);
}

#[test]
fn move_to_blocked_piece_is_immovable() {
    let mut rows = empty_rows();
    rows[21][4] = 1;
    let mut t = game_with(rows.clone(), Some(1), Some((42, 8)));
    let mut piece = vec![(21, 4)];
    match t.move_to(&mut piece, 'D') {
        Err(Undroppable::Immovable(p)) => assert_eq!(p, vec![(21, 4)]),
        _ => panic!("expected a blocked piece"),
    }
    assert_eq!(t.board.get_matrix(), rows);
    assert_eq!(t.center, Some((42, 8)));
}

#[test]
fn move_to_blocked_at_the_top_is_lost() {
    let (mut t, pts) = t_piece_game();
    t.board.set_element(2, 3, 5);
    let mut piece = pts.clone();
    match t.move_to(&mut piece, 'D') {
        Err(Undroppable::Lost(p)) => assert_eq!(p, pts),
        _ => panic!("expected a lost game"),
    }
    let mut piece = pts.clone();
    t.board.set_element(1, 2, 5);
    match t.move_to(&mut piece, 'L') {
        Err(Undroppable::Immovable(p)) => assert_eq!(p, pts),
        _ => panic!("a sideways block is not a lost game"),
    }
}

#[test]
fn hard_drop_drops_to_the_bottom() {
    let (mut t, pts) = t_piece_game();
    match t.hard_drop(&pts) {
        Undroppable::Immovable(p) => assert_eq!(p, vec![(20, 4), (21, 3), (21, 4), (21, 5)]),
        _ => panic!("the piece should rest at the bottom"),
    }
    assert_eq!(t.center, Some((42, 8)));
    let m = t.board.get_matrix();
    assert_eq!(m[20], vec![0, 0, 0, 0, 1, 0, 0, 0, 0, 0]);
    assert_eq!(m[21], vec![0, 0, 0, 1, 1, 1, 0, 0, 0, 0]);
    assert_eq!(m[1], vec![0u8; 10]);
}

#[test]
fn hard_drop_on_a_full_column_is_lost() {
    let mut rows = empty_rows();
    rows[1][0] = 3;
    let mut t = game_with(rows, Some(1), Some((0, 0)));
    match t.hard_drop(&vec![(0, 0)]) {
        Undroppable::Lost(p) => assert_eq!(p, vec![(0, 0)]),
        _ => panic!("expected a lost game"),
    }
    assert_eq!(t.center, Some((0, 0)));
}

#[test]
fn clear_lines_clears_and_drops_rows() {
    let mut rows = empty_rows();
    rows[21] = vec![2u8; 10];
    rows[20][0] = 3;
    let mut t = game_with(rows, Some(1), Some((0, 0)));
    t.clear_lines();
    let mut expected = empty_rows();
    expected[21][0] = 3;
    assert_eq!(t.board.get_matrix(), expected);
    assert_eq!(t.center, Some((422, 0)));
    assert!(t.check_filled_lines().is_empty());
}

#[test]
fn clear_lines_stacks_the_remaining_rows_in_order() {
    let mut rows = empty_rows();
    rows[5][0] = 1;
    rows[10] = vec![4u8; 10];
    rows[15][1] = 2;
    rows[21][2] = 3;
    let mut t = game_with(rows, Some(1), Some((0, 0)));
    t.clear_lines();
    let mut expected = empty_rows();
    expected[19][0] = 1;
    expected[20][1] = 2;
    expected[21][2] = 3;
    assert_eq!(t.board.get_matrix(), expected);
}

#[test]
fn clear_lines_without_full_rows_changes_nothing() {
    let mut rows = empty_rows();
    rows[20][0] = 3;
    rows[5][5] = 1;
    let mut t = game_with(rows.clone(), Some(2), None);
    t.clear_lines();
    assert_eq!(t.board.get_matrix(), rows);
    assert_eq!(t.center, None);
}

#[test]
fn shape_matrix_reads_the_window() {
    let (mut t, pts) = t_piece_game();
    let mut piece = pts.clone();
    let moved = t.move_to(&mut piece, 'D').unwrap();
    assert_eq!(t.shape_matrix(&moved), vec![vec![0, 1, 0], vec![1, 1, 1], vec![0, 0, 0]]);
}

#[test]
fn rotate_turns_the_t() {
    let (mut t, pts) = t_piece_game();
    let mut piece = pts.clone();
    let moved = t.move_to(&mut piece, 'D').unwrap();
    let turned = t.rotate(&moved).unwrap();
    assert_eq!(turned, vec![(1, 4), (2, 4), (2, 5), (3, 4)]);
    let m = t.board.get_matrix();
    assert_eq!(m[1], vec![0, 0, 0, 0, 1, 0, 0, 0, 0, 0]);
    assert_eq!(m[2], vec![0, 0, 0, 0, 1, 1, 0, 0, 0, 0]);
    assert_eq!(m[3], vec![0, 0, 0, 0, 1, 0, 0, 0, 0, 0]);
    assert_eq!(t.center, Some((4, 8)));
}

#[test]
fn rotate_into_a_taken_cell_is_refused() {
    let (mut t, pts) = t_piece_game();
    let mut piece = pts.clone();
    let moved = t.move_to(&mut piece, 'D').unwrap();
    t.board.set_element(3, 4, 7);
    let before = t.board.get_matrix();
    match t.rotate(&moved) {
        Err(p) => assert_eq!(p, moved),
        Ok(_) => panic!("the turn should be refused"),
    }
    assert_eq!(t.board.get_matrix(), before);
}

#[test]
fn find_gives_the_first_match() {
    let v = vec![3u32, 5, 7, 5];
    assert_eq!(find(&v, &5u32), Ok(1));
    assert_eq!(find(&v, &3u32), Ok(0));
    assert_eq!(find(&v, &9u32), Err(0));
    let empty: Vec<u32> = vec![];
    assert_eq!(find(&empty, &1u32), Err(0));
}

#[test]
fn rotate_leaves_an_adjacent_block_in_place() {
    let (mut t, pts) = t_piece_game();
    let mut piece = pts.clone();
    let moved = t.move_to(&mut piece, 'D').unwrap();
    t.board.set_element(3, 3, 9);
    let turned = t.rotate(&moved).unwrap();
    assert_eq!(turned, vec![(1, 4), (2, 4), (2, 5), (3, 4)]);
    let m = t.board.get_matrix();
    assert_eq!(m[1][3], 0);
    assert_eq!(m[3][3], 9);
}

#[test]
fn rotate_turns_a_straight_piece_beside_a_block() {
    let mut rows = empty_rows();
    for c in 0..4 {
        rows[0][c] = 7;
    }
    rows[2][0] = 9;
    let mut t = game_with(rows, Some(7), Some((3, 3)));
    let piece = vec![(0, 0), (0, 1), (0, 2), (0, 3)];
    let turned = t.rotate(&piece).unwrap();
    assert_eq!(turned, vec![(0, 3), (1, 3), (2, 3), (3, 3)]);
    let m = t.board.get_matrix();
    assert_eq!(m[0], vec![0, 0, 0, 7, 0, 0, 0, 0, 0, 0]);
    assert_eq!(m[1][3], 7);
    assert_eq!(m[2][3], 7);
    assert_eq!(m[3][3], 7);
    assert_eq!(m[2][0], 9);
    assert_eq!(m[0][1], 0);
}

#[test]
fn rotate_out_of_the_field_is_refused() {
    let mut rows = empty_rows();
    for c in 0..4 {
        rows[0][c] = 7;
    }
    let mut t = game_with(rows.clone(), Some(7), Some((-3, 3)));
    let piece = vec![(0, 0), (0, 1), (0, 2), (0, 3)];
    match t.rotate(&piece) {
        Err(p) => assert_eq!(p, piece),
        Ok(_) => panic!("the turn should be refused"),
    }
    assert_eq!(t.board.get_matrix(), rows);
}

#[test]
fn four_turns_bring_the_t_back() {
    let (mut t, pts) = t_piece_game();
    let mut piece = pts.clone();
    let moved = t.move_to(&mut piece, 'D').unwrap();
    let before = t.board.get_matrix();
    let mut p = moved.clone();
    for _ in 0..4 {
        p = t.rotate(&p).unwrap();
    }
    assert_eq!(p, moved);
    assert_eq!(t.board.get_matrix(), before);
}

#[test]
fn random_placement_varies() {
    let mut shapes = std::collections::HashSet::new();
    let mut columns = std::collections::HashSet::new();
    for _ in 0..300 {
        let mut t = Tetris::new();
        let pts = t.insert_random_shape();
        shapes.insert(t.current_shape.unwrap());
        columns.insert(pts.iter().map(|p| p.1).min().unwrap());
    }
    assert!(shapes.len() > 1);
    assert!(columns.len() > 1);
}

#[test]
fn rotate_gives_the_cells_in_reading_order() {
    let mut t = game_with(empty_rows(), Some(1), None);
    let pts = t.insert_shape_at([[0u8, 1, 0], [1, 1, 1]], 0);
    assert_eq!(pts, vec![(0, 1), (1, 0), (1, 1), (1, 2)]);
    assert_eq!(t.center, Some((2, 2)));
    let turned = t.rotate(&pts).unwrap();
    assert_eq!(turned, vec![(0, 1), (1, 1), (1, 2), (2, 1)]);
}

#[test]
fn refused_turn_writes_the_shape_back_into_the_piece() {
    let mut rows = empty_rows();
    for c in 0..4 {
        rows[0][c] = 5;
    }
    let mut t = game_with(rows, Some(7), Some((-3, 3)));
    let piece = vec![(0, 0), (0, 1), (0, 2), (0, 3)];
    assert!(t.rotate(&piece).is_err());
    assert_eq!(t.board.get_matrix()[0], vec![7, 7, 7, 7, 0, 0, 0, 0, 0, 0]);
}

#[test]
fn clear_lines_counts_the_full_rows() {
    let mut rows = empty_rows();
    rows[3] = vec![1u8; 10];
    rows[21] = vec![2u8; 10];
    let mut t = game_with(rows, Some(1), Some((0, 0)));
    assert_eq!(t.clear_lines(), 2);
    assert_eq!(t.clear_lines(), 0);
    assert_eq!(t.score, 0);
}
