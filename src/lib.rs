//! A 9x9 Sudoku core: validity rules, a backtracking solver, a puzzle
//! generator and an interactive board model, each with a verified contract.

pub mod rules;
pub mod solver;
pub mod generator;
pub mod puzzle;
pub mod board;

pub use board::{Board, BoardSquare};
pub use generator::{generate_puzzle, generate_sudoku, Difficulty};
pub use puzzle::SudokuBoard;
pub use rules::{get_suggestions, is_valid};
pub use solver::solve_sudoku;
