use my_sudoku::{Board, BoardSquare};

fn puzzle_bytes() -> [u8; 81] {
    let rows: [[u8; 9]; 9] = [
        [5, 3, 0, 0, 7, 0, 0, 0, 0],
        [6, 0, 0, 1, 9, 5, 0, 0, 0],
        [0, 9, 8, 0, 0, 0, 0, 6, 0],
        [8, 0, 0, 0, 6, 0, 0, 0, 3],
        [4, 0, 0, 8, 0, 3, 0, 0, 1],
        [7, 0, 0, 0, 2, 0, 0, 0, 6],
        [0, 6, 0, 0, 0, 0, 2, 8, 0],
        [0, 0, 0, 4, 1, 9, 0, 0, 5],
        [0, 0, 0, 0, 8, 0, 0, 7, 9],
    ];
    let mut bytes = [0u8; 81];
    for r in 0..9 {
        for c in 0..9 {
            bytes[r * 9 + c] = rows[r][c];
        }
    }
    bytes
}

#[test]
fn new_square_has_no_marks() {
    let sq = BoardSquare::new(4, true, false);
    assert_eq!(sq.value, 4);
    assert!(sq.original);
    assert!(!sq.is_valid);
    assert_eq!(sq.marks, vec![' '; 9]);
    assert!(!sq.has_marks());
}

#[test]
fn set_value_on_a_dealt_square_is_ignored() {
    let mut sq = BoardSquare::new(4, true, true);
    sq.set_value(7);
    assert_eq!(sq.value, 4);
}

#[test]
fn set_value_clears_marks() {
    let mut sq = BoardSquare::new(0, false, true);
    sq.toggle_mark(3);
    assert!(sq.has_marks());
    sq.set_value(7);
    assert_eq!(sq.value, 7);
    assert!(!sq.has_marks());
}

#[test]
fn set_valid_records_the_flag() {
    let mut sq = BoardSquare::new(0, false, true);
    sq.set_valid(false);
    assert!(!sq.is_valid);
    sq.set_valid(true);
    assert!(sq.is_valid);
}

#[test]
fn toggle_mark_twice_restores_marks() {
    let mut sq = BoardSquare::new(0, false, true);
    sq.toggle_mark(5);
    let before = sq.marks.clone();
    sq.toggle_mark(2);
    assert_eq!(sq.marks[1], '2');
    sq.toggle_mark(2);
    assert_eq!(sq.marks, before);
    assert_eq!(sq.marks[4], '5');
}

#[test]
fn remove_mark_takes_one_digit_out() {
    let mut sq = BoardSquare::new(0, false, true);
    sq.toggle_mark(1);
    sq.toggle_mark(9);
    sq.remove_mark(0);
    assert_eq!(sq.marks[0], '1');
    sq.remove_mark(9);
    assert_eq!(sq.marks[8], ' ');
    assert_eq!(sq.marks[0], '1');
}

#[test]
fn get_marks_lays_out_three_lines() {
    let mut sq = BoardSquare::new(0, false, true);
    assert_eq!(sq.get_marks(), "     \n     \n     ");
    sq.toggle_mark(1);
    sq.toggle_mark(5);
    sq.toggle_mark(9);
    assert_eq!(sq.get_marks(), "1    \n  5  \n    9");
}

#[test]
fn from_bytes_marks_filled_cells_as_dealt() {
    let board = Board::from_bytes(puzzle_bytes());
    assert!(!board.is_solved);
    assert!(!board.mark_mode);
    assert_eq!(board.boxes.len(), 9);
    assert_eq!(board.boxes[0][0].value, 5);
    assert!(board.boxes[0][0].original);
    assert_eq!(board.boxes[0][2].value, 0);
    assert!(!board.boxes[0][2].original);
    for r in 0..9 {
        for c in 0..9 {
            assert!(board.boxes[r][c].is_valid);
            assert!(!board.boxes[r][c].has_marks());
        }
    }
}

#[test]
fn set_box_clears_the_digit_from_peer_marks() {
    let mut board = Board::from_bytes(puzzle_bytes());
    // (0,2) row peer, (2,0) box peer, (8,2) column peer, (4,4) unrelated
    for &(r, c) in &[(0usize, 2usize), (2, 0), (8, 2), (4, 4), (1, 1)] {
        board.boxes[r][c].toggle_mark(4);
        board.boxes[r][c].toggle_mark(2);
    }
    board.set_box(1, 2, 4);
    assert_eq!(board.boxes[1][2].value, 4);
    assert!(!board.boxes[1][2].has_marks());
    for &(r, c) in &[(0usize, 2usize), (2, 0), (8, 2), (1, 1)] {
        assert_eq!(board.boxes[r][c].marks[3], ' ');
        assert_eq!(board.boxes[r][c].marks[1], '2');
    }
    assert_eq!(board.boxes[4][4].marks[3], '4');
}

#[test]
fn set_box_with_zero_leaves_peer_marks() {
    let mut board = Board::from_bytes(puzzle_bytes());
    board.boxes[0][2].toggle_mark(1);
    board.set_box(1, 2, 4);
    board.set_box(1, 2, 0);
    assert_eq!(board.boxes[1][2].value, 0);
    assert_eq!(board.boxes[0][2].marks[0], '1');
}

#[test]
fn set_box_on_a_dealt_cell_changes_nothing() {
    let mut board = Board::from_bytes(puzzle_bytes());
    board.boxes[0][2].toggle_mark(6);
    board.set_box(0, 0, 6);
    assert_eq!(board.boxes[0][0].value, 5);
    assert_eq!(board.boxes[0][2].marks[5], '6');
}

#[test]
fn check_validity_of_an_empty_cell_is_true() {
    let board = Board::from_bytes(puzzle_bytes());
    assert!(board.check_validity(0, 2));
}

#[test]
fn check_validity_finds_duplicates_in_row_column_and_box() {
    let mut board = Board::from_bytes(puzzle_bytes());
    // 5 is in row 0
    board.set_box(0, 2, 5);
    assert!(!board.check_validity(0, 2));
    board.set_box(0, 2, 0);
    board.set_box(2, 0, 1);
    assert!(board.check_validity(2, 0));
    // 6 is in column 1 at (6,1)
    board.set_box(8, 1, 6);
    assert!(!board.check_validity(8, 1));
    board.set_box(8, 1, 0);
    // 9 is in the top-left box at (2,1), though in another row and column
    board.set_box(1, 2, 9);
    assert!(!board.check_validity(1, 2));
    board.set_box(1, 2, 4);
    assert!(board.check_validity(1, 2));
    // a dealt cell against the duplicate just placed
    board.set_box(1, 2, 5);
    assert!(!board.check_validity(0, 0));
}
