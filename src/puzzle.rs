//! A generated game: the puzzle as dealt, the player's current grid and the
//! solution the puzzle was carved from.
use vstd::prelude::*;
use crate::generator::{copy_grid, filled_count, generate_puzzle, Difficulty};
use crate::rules::{grid_of, is_solution, well_formed};

verus! {

/// A game of a given level: the dealt puzzle, the grid as the player has
/// filled it so far, and the solution.
pub struct SudokuBoard {
    pub generated_values: Vec<Vec<u8>>,
    pub current_values: Vec<Vec<u8>>,
    pub solution: Vec<Vec<u8>>,
    pub difficulty: Difficulty,
}

impl SudokuBoard {
    /// The three grids are 9x9, the solution is one, and the puzzle keeps
    /// the level's number of its cells.
    pub open spec fn wf(&self) -> bool {
        &&& well_formed(self.generated_values@)
        &&& well_formed(self.current_values@)
        &&& well_formed(self.solution@)
        &&& is_solution(grid_of(self.solution@))
        &&& filled_count(grid_of(self.generated_values@)) == self.difficulty.clue_count()
        &&& forall|i: int|
            0 <= i < 81 && #[trigger] grid_of(self.generated_values@)[i] != 0 ==> grid_of(
                self.generated_values@,
            )[i] == grid_of(self.solution@)[i]
    }

    /// A new game of the given level, with nothing filled in yet.
    pub fn with_difficulty(difficulty: Difficulty) -> (board: Self)
        ensures
            board.wf(),
            board.difficulty == difficulty,
            grid_of(board.current_values@) == grid_of(board.generated_values@),
    {
        let (puzzle, solution) = generate_puzzle(difficulty);
        let current = copy_grid(&puzzle);
        SudokuBoard {
            generated_values: puzzle,
            current_values: current,
            solution,
            difficulty,
        }
    }

    /// Whether the current grid equals the solution cell for cell.
    pub fn is_solved(&self) -> (solved: bool)
        requires
            well_formed(self.current_values@),
            well_formed(self.solution@),
        ensures
            solved == (grid_of(self.current_values@) == grid_of(self.solution@)),
    {
        let ghost cur = grid_of(self.current_values@);
        let ghost sol = grid_of(self.solution@);
        let mut p: usize = 0;
        while p < 81
            invariant
                well_formed(self.current_values@),
                well_formed(self.solution@),
                cur == grid_of(self.current_values@),
                sol == grid_of(self.solution@),
                p <= 81,
                forall|i: int| 0 <= i < p ==> cur[i] == sol[i],
            decreases 81 - p,
        {
            if self.current_values[p / 9][p % 9] != self.solution[p / 9][p % 9] {
                assert(cur[p as int] != sol[p as int]);
                return false;
            }
            p += 1;
        }
        assert(cur =~= sol);
        true
    }
}

impl Default for SudokuBoard {
    /// A new game of the easy level.
    fn default() -> (board: Self)
        ensures
            board.wf(),
            board.difficulty == Difficulty::Easy,
            grid_of(board.current_values@) == grid_of(board.generated_values@),
    {
        SudokuBoard::with_difficulty(Difficulty::Easy)
    }
}

} // verus!
