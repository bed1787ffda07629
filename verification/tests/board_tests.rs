use tetrust::board::Board;

#[test]
fn board_new_fills_every_cell() {
    let b = Board::new(3, 4, 7u8);
    let m = b.get_matrix();
    assert_eq!(m.len(), 3);
    for row in &m {
        assert_eq!(row, &vec![7u8, 7, 7, 7]);
    }
}

#[test]
fn board_from_and_get_matrix_round_trip() {
    let rows = vec![vec![1u8, 2], vec![3, 4], vec![5, 6]];
    let b = Board::from(rows.clone());
    assert_eq!(b.get_matrix(), rows);
    assert_eq!(*b.get_element(2, 1), 6);
}

#[test]
fn board_set_element_changes_one_cell() {
    let mut b = Board::new(2, 2, 0u8);
    b.set_element(1, 0, 9);
    assert_eq!(b.get_matrix(), vec![vec![0, 0], vec![9, 0]]);
    assert_eq!(*b.get_element(1, 0), 9);
}

#[test]
fn board_rotate_clockwise_two_by_three() {
    let mut b = Board::from(vec![vec![1u8, 2, 3], vec![4, 5, 6]]);
    b.rotate_clockwise();
    assert_eq!(b.get_matrix(), vec![vec![4, 1], vec![5, 2], vec![6, 3]]);
}

#[test]
fn board_four_rotations_give_back_the_board() {
    let rows = vec![vec![1u8, 2, 3, 4], vec![5, 6, 7, 8], vec![9, 10, 11, 12]];
    let mut b = Board::from(rows.clone());
    for _ in 0..4 {
        b.rotate_clockwise();
    }
    assert_eq!(b.get_matrix(), rows);
}

#[test]
fn board_rotate_short_row_uses_first_cell() {
    let mut b = Board::from(vec![vec![1u8, 2, 3], vec![4]]);
    b.rotate_clockwise();
    assert_eq!(b.get_matrix(), vec![vec![4, 1], vec![1, 2], vec![1, 3]]);
}
