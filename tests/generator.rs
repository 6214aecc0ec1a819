use my_sudoku::{generate_puzzle, generate_sudoku, Difficulty, SudokuBoard};

fn is_permutation(cells: &[u8]) -> bool {
    let mut seen = [false; 10];
    for &d in cells {
        if d == 0 || d > 9 || seen[d as usize] {
            return false;
        }
        seen[d as usize] = true;
    }
    cells.len() == 9
}

fn houses_are_permutations(g: &Vec<Vec<u8>>) -> bool {
    for i in 0..9 {
        let row: Vec<u8> = (0..9).map(|c| g[i][c]).collect();
        let col: Vec<u8> = (0..9).map(|r| g[r][i]).collect();
        let bx: Vec<u8> = (0..9).map(|k| g[(i / 3) * 3 + k / 3][(i % 3) * 3 + k % 3]).collect();
        if !is_permutation(&row) || !is_permutation(&col) || !is_permutation(&bx) {
            return false;
        }
    }
    true
}

fn filled(g: &Vec<Vec<u8>>) -> usize {
    g.iter().map(|r| r.iter().filter(|&&d| d != 0).count()).sum()
}

fn check_puzzle(difficulty: Difficulty, clues: usize) {
    let (puzzle, solution) = generate_puzzle(difficulty);
    assert_eq!(puzzle.len(), 9);
    assert_eq!(filled(&puzzle), clues);
    assert!(houses_are_permutations(&solution));
    for r in 0..9 {
        assert_eq!(puzzle[r].len(), 9);
        for c in 0..9 {
            assert!(puzzle[r][c] == 0 || puzzle[r][c] == solution[r][c]);
        }
    }
}

#[test]
fn easy_puzzle_keeps_thirty_eight_clues() {
    check_puzzle(Difficulty::Easy, 38);
}

#[test]
fn medium_puzzle_keeps_thirty_clues() {
    check_puzzle(Difficulty::Medium, 30);
}

#[test]
fn hard_puzzle_keeps_twenty_five_clues() {
    check_puzzle(Difficulty::Hard, 25);
}

#[test]
fn easy_generation_repeated_a_hundred_times() {
    for _ in 0..100 {
        check_puzzle(Difficulty::Easy, 38);
    }
}

#[test]
fn generate_sudoku_returns_a_puzzle_of_the_level() {
    let board = generate_sudoku(Difficulty::Hard);
    assert_eq!(filled(&board), 25);
    assert!(board.iter().all(|r| r.len() == 9 && r.iter().all(|&d| d <= 9)));
}

#[test]
fn new_game_starts_from_the_puzzle() {
    let game = SudokuBoard::with_difficulty(Difficulty::Medium);
    assert_eq!(game.difficulty, Difficulty::Medium);
    assert_eq!(game.current_values, game.generated_values);
    assert_eq!(filled(&game.generated_values), 30);
    assert!(houses_are_permutations(&game.solution));
    assert!(!game.is_solved());
}

#[test]
fn game_is_solved_once_the_grid_matches_the_solution() {
    let mut game = SudokuBoard::default();
    assert_eq!(game.difficulty, Difficulty::Easy);
    assert!(!game.is_solved());
    game.current_values = game.solution.clone();
    assert!(game.is_solved());
    game.current_values[4][4] = 0;
    assert!(!game.is_solved());
}

#[test]
fn clue_counts_per_level() {
    assert_eq!(Difficulty::Easy.clues(), 38);
    assert_eq!(Difficulty::Medium.clues(), 30);
    assert_eq!(Difficulty::Hard.clues(), 25);
}
