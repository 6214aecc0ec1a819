use my_sudoku::{get_suggestions, is_valid, solve_sudoku};

fn empty_grid() -> Vec<Vec<u8>> {
    vec![vec![0u8; 9]; 9]
}

fn is_permutation(cells: &[u8]) -> bool {
    let mut seen = [false; 10];
    for &d in cells {
        if d == 0 || d > 9 || seen[d as usize] {
            return false;
        }
        seen[d as usize] = true;
    }
    cells.len() == 9
}

fn houses_are_permutations(g: &Vec<Vec<u8>>) -> bool {
    for i in 0..9 {
        let row: Vec<u8> = (0..9).map(|c| g[i][c]).collect();
        let col: Vec<u8> = (0..9).map(|r| g[r][i]).collect();
        let bx: Vec<u8> = (0..9).map(|k| g[(i / 3) * 3 + k / 3][(i % 3) * 3 + k % 3]).collect();
        if !is_permutation(&row) || !is_permutation(&col) || !is_permutation(&bx) {
            return false;
        }
    }
    true
}

#[test]
fn solve_seeded_first_row_ascending() {
    let mut grid = empty_grid();
    grid[0] = vec![5, 3, 4, 6, 7, 8, 9, 1, 2];
    assert!(solve_sudoku(&mut grid, false));
    assert_eq!(grid[0], vec![5, 3, 4, 6, 7, 8, 9, 1, 2]);
    assert!(houses_are_permutations(&grid));
}

#[test]
fn solve_seeded_first_row_descending() {
    let mut grid = empty_grid();
    grid[0] = vec![5, 3, 4, 6, 7, 8, 9, 1, 2];
    assert!(solve_sudoku(&mut grid, true));
    assert_eq!(grid[0], vec![5, 3, 4, 6, 7, 8, 9, 1, 2]);
    assert!(houses_are_permutations(&grid));
}

#[test]
fn solve_empty_grid_ascending_gives_first_row_in_order() {
    let mut grid = empty_grid();
    assert!(solve_sudoku(&mut grid, false));
    assert_eq!(grid[0], vec![1, 2, 3, 4, 5, 6, 7, 8, 9]);
    assert!(houses_are_permutations(&grid));
}

#[test]
fn solve_empty_grid_descending_gives_first_row_reversed() {
    let mut grid = empty_grid();
    assert!(solve_sudoku(&mut grid, true));
    assert_eq!(grid[0], vec![9, 8, 7, 6, 5, 4, 3, 2, 1]);
    assert!(houses_are_permutations(&grid));
}

#[test]
fn solve_keeps_clues_of_a_classic_puzzle() {
    let rows: [[u8; 9]; 9] = [
        [5, 3, 0, 0, 7, 0, 0, 0, 0],
        [6, 0, 0, 1, 9, 5, 0, 0, 0],
        [0, 9, 8, 0, 0, 0, 0, 6, 0],
        [8, 0, 0, 0, 6, 0, 0, 0, 3],
        [4, 0, 0, 8, 0, 3, 0, 0, 1],
        [7, 0, 0, 0, 2, 0, 0, 0, 6],
        [0, 6, 0, 0, 0, 0, 2, 8, 0],
        [0, 0, 0, 4, 1, 9, 0, 0, 5],
        [0, 0, 0, 0, 8, 0, 0, 7, 9],
    ];
    let mut grid: Vec<Vec<u8>> = rows.iter().map(|r| r.to_vec()).collect();
    assert!(solve_sudoku(&mut grid, false));
    assert!(houses_are_permutations(&grid));
    for r in 0..9 {
        for c in 0..9 {
            if rows[r][c] != 0 {
                assert_eq!(grid[r][c], rows[r][c]);
            }
        }
    }
    assert_eq!(grid[0], vec![5, 3, 4, 6, 7, 8, 9, 1, 2]);
}

#[test]
fn solve_reports_a_grid_without_solution() {
    let mut grid = empty_grid();
    grid[0] = vec![1, 2, 3, 4, 5, 6, 7, 8, 0];
    grid[1][8] = 9;
    assert!(!solve_sudoku(&mut grid, false));
    assert_eq!(grid[1][8], 9);
}

#[test]
fn solve_full_valid_grid_is_unchanged() {
    let mut grid = empty_grid();
    grid[0] = vec![5, 3, 4, 6, 7, 8, 9, 1, 2];
    assert!(solve_sudoku(&mut grid, false));
    let before = grid.clone();
    assert!(solve_sudoku(&mut grid, true));
    assert_eq!(grid, before);
}

#[test]
fn is_valid_checks_row_column_and_box() {
    let mut grid = empty_grid();
    grid[0][0] = 5;
    assert!(!is_valid(&grid, 0, 8, 5));
    assert!(!is_valid(&grid, 8, 0, 5));
    assert!(!is_valid(&grid, 2, 2, 5));
    assert!(!is_valid(&grid, 1, 0, 5));
    assert!(is_valid(&grid, 3, 3, 5));
    assert!(is_valid(&grid, 0, 8, 4));
    // the cell itself is never compared
    assert!(is_valid(&grid, 0, 0, 5));
}

#[test]
fn suggestions_are_the_free_digits_in_order() {
    let mut grid = empty_grid();
    grid[0] = vec![5, 3, 4, 6, 7, 8, 9, 1, 2];
    assert_eq!(get_suggestions(&grid, 1, 0), vec![1, 2, 6, 7, 8, 9]);
    assert_eq!(get_suggestions(&grid, 4, 4), vec![1, 2, 3, 4, 5, 6, 8, 9]);
    let full: Vec<u8> = (1..=9).collect();
    assert_eq!(get_suggestions(&empty_grid(), 4, 4), full);
}
