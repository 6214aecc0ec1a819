//! Random puzzle generation: a random seed is completed by the solver, then
//! cells are emptied at random until the difficulty's number of clues is left.
use vstd::prelude::*;
use crate::rules::{
    completes, consistent, get_suggestions, grid_of, is_peer, is_solution, lemma_candidates_upto,
    lemma_place_keeps_consistent, set_cell, well_formed,
};
use crate::solver::solve_sudoku;

verus! {

/// The grid with `row` as its first row and every other cell empty.
pub open spec fn first_row_grid(row: Seq<u8>) -> Seq<u8> {
    Seq::new(81, |p: int| if p < 9 { row[p] } else { 0 })
}

/// Shift of row `r` in the banded pattern below: 0, 3, 6, 1, 4, 7, 2, 5, 8.
spec fn band_shift(r: int) -> int {
    3 * (r % 3) + r / 3
}

/// A full grid built from `row` by shifting it along each row.
spec fn banded(row: Seq<u8>) -> Seq<u8> {
    Seq::new(81, |p: int| row[(band_shift(p / 9) + p % 9) % 9])
}

proof fn lemma_banded_peers_differ(p: int, q: int)
    requires
        0 <= p < 81,
        is_peer(p, q),
    ensures
        (band_shift(p / 9) + p % 9) % 9 != (band_shift(q / 9) + q % 9) % 9,
{
}

/// Any first row of nine distinct digits can be completed to a solution.
proof fn lemma_first_row_completes(row: Seq<u8>)
    requires
        row.len() == 9,
        row.no_duplicates(),
        forall|k: int| 0 <= k < 9 ==> 1 <= #[trigger] row[k] <= 9,
    ensures
        completes(banded(row), first_row_grid(row)),
{
    let s = banded(row);
    assert forall|p: int, q: int| 0 <= p < 81 && #[trigger] is_peer(p, q) && s[p] != 0 implies s[p]
        != s[q] by {
        lemma_banded_peers_differ(p, q);
    }
}

/// Relies on rand::random: a value drawn from the thread-local generator.
/// Nothing is known of the value.
pub assume_specification<T>[ rand::random::<T> ]() -> (r: T)
    where
        rand::distributions::Standard: rand::distributions::Distribution<T>,
;

/// The level of a puzzle, which fixes how many clues it keeps.
#[derive(Clone, Copy, PartialEq, Eq, Structural, Debug)]
pub enum Difficulty {
    Easy,
    Medium,
    Hard,
}

impl Difficulty {
    /// The number of filled cells that a puzzle of this level keeps.
    pub open spec fn clue_count(self) -> int {
        match self {
            Difficulty::Easy => 38,
            Difficulty::Medium => 30,
            Difficulty::Hard => 25,
        }
    }

    /// The number of filled cells that a puzzle of this level keeps.
    pub fn clues(&self) -> (n: usize)
        ensures
            n == self.clue_count(),
    {
        match self {
            Difficulty::Easy => 38,
            Difficulty::Medium => 30,
            Difficulty::Hard => 25,
        }
    }
}

/// The number of filled cells among the first `n`.
pub open spec fn filled_below(g: Seq<u8>, n: int) -> int
    decreases n,
{
    if n <= 0 {
        0
    } else {
        filled_below(g, n - 1) + if g[n - 1] != 0 {
            1int
        } else {
            0
        }
    }
}

/// The number of filled cells of a grid.
pub open spec fn filled_count(g: Seq<u8>) -> int {
    filled_below(g, 81)
}

proof fn lemma_filled_below_full(g: Seq<u8>, n: int)
    requires
        0 <= n <= g.len(),
        forall|i: int| 0 <= i < n ==> #[trigger] g[i] != 0,
    ensures
        filled_below(g, n) == n,
    decreases n,
{
    if n > 0 {
        lemma_filled_below_full(g, n - 1);
    }
}

proof fn lemma_filled_below_bound(g: Seq<u8>, n: int)
    requires
        0 <= n,
    ensures
        0 <= filled_below(g, n) <= n,
    decreases n,
{
    if n > 0 {
        lemma_filled_below_bound(g, n - 1);
    }
}

proof fn lemma_filled_below_clear(g: Seq<u8>, p: int, n: int)
    requires
        0 <= p < g.len(),
        g[p] != 0,
        0 <= n <= g.len(),
    ensures
        filled_below(g.update(p, 0), n) == filled_below(g, n) - if p < n {
            1int
        } else {
            0
        },
    decreases n,
{
    if n > 0 {
        lemma_filled_below_clear(g, p, n - 1);
    }
}

/// A number drawn at random below `n`.
fn random_below(n: usize) -> (r: usize)
    requires
        n > 0,
    ensures
        r < n,
{
    rand::random::<usize>() % n
}

/// A random arrangement of the digits 1..=9.
fn random_first_row() -> (row: Vec<u8>)
    ensures
        row@.len() == 9,
        row@.no_duplicates(),
        forall|k: int| 0 <= k < 9 ==> 1 <= #[trigger] row@[k] <= 9,
{
    let mut values: Vec<u8> = vec![1, 2, 3, 4, 5, 6, 7, 8, 9];
    let mut row: Vec<u8> = Vec::new();
    while row.len() < 9
        invariant
            values@.len() + row@.len() == 9,
            values@.no_duplicates(),
            row@.no_duplicates(),
            forall|k: int| 0 <= k < values@.len() ==> 1 <= #[trigger] values@[k] <= 9,
            forall|k: int| 0 <= k < row@.len() ==> 1 <= #[trigger] row@[k] <= 9,
            forall|k: int, l: int|
                0 <= k < row@.len() && 0 <= l < values@.len() ==> #[trigger] row@[k]
                    != #[trigger] values@[l],
        decreases values@.len(),
    {
        let index = random_below(values.len());
        let ghost old_values = values@;
        let ghost old_row = row@;
        let v = values.remove(index);
        row.push(v);
        assert forall|k: int, l: int|
            0 <= k < row@.len() && 0 <= l < values@.len() implies #[trigger] row@[k]
            != #[trigger] values@[l] by {
            let l0 = if l < index {
                l
            } else {
                l + 1
            };
            assert(values@[l] == old_values[l0]);
            if k < old_row.len() {
                assert(row@[k] == old_row[k]);
            }
        }
        assert forall|i: int, j: int|
            0 <= i < row@.len() && 0 <= j < row@.len() && i != j implies row@[i] != row@[j] by {
            if i < old_row.len() && j < old_row.len() {
                assert(row@[i] == old_row[i] && row@[j] == old_row[j]);
            } else if i < old_row.len() {
                assert(old_values[index as int] == v);
            } else {
                assert(old_values[index as int] == v);
            }
        }
    }
    row
}

/// The grid with `row` as its first row and every other cell empty.
fn grid_with_first_row(row: &Vec<u8>) -> (board: Vec<Vec<u8>>)
    requires
        row@.len() == 9,
        forall|k: int| 0 <= k < 9 ==> #[trigger] row@[k] <= 9,
    ensures
        well_formed(board@),
        grid_of(board@) == first_row_grid(row@),
{
    let mut board: Vec<Vec<u8>> = Vec::new();
    board.push(row.clone());
    while board.len() < 9
        invariant
            1 <= board@.len() <= 9,
            row@.len() == 9,
            forall|k: int| 0 <= k < 9 ==> #[trigger] row@[k] <= 9,
            board@[0]@ == row@,
            forall|r: int| 1 <= r < board@.len() ==> (#[trigger] board@[r])@ == seq![0u8; 9],
        decreases 9 - board@.len(),
    {
        board.push(vec![0u8; 9]);
    }
    assert(grid_of(board@) =~= first_row_grid(row@));
    board
}

/// A copy of a grid.
pub(crate) fn copy_grid(board: &Vec<Vec<u8>>) -> (copy: Vec<Vec<u8>>)
    requires
        well_formed(board@),
    ensures
        well_formed(copy@),
        grid_of(copy@) == grid_of(board@),
{
    let mut copy: Vec<Vec<u8>> = Vec::new();
    let mut r: usize = 0;
    while r < 9
        invariant
            well_formed(board@),
            r <= 9,
            copy@.len() == r,
            forall|i: int| 0 <= i < r ==> (#[trigger] copy@[i])@ == board@[i]@,
        decreases 9 - r,
    {
        let mut line: Vec<u8> = Vec::new();
        let mut c: usize = 0;
        while c < 9
            invariant
                well_formed(board@),
                r < 9,
                c <= 9,
                line@ == board@[r as int]@.subrange(0, c as int),
            decreases 9 - c,
        {
            line.push(board[r][c]);
            c += 1;
        }
        assert(line@ == board@[r as int]@);
        copy.push(line);
        r += 1;
    }
    assert(grid_of(copy@) =~= grid_of(board@));
    copy
}

/// The position of the filled cell that has exactly `k` filled cells before
/// it.
fn nth_filled(board: &Vec<Vec<u8>>, k: usize) -> (p: usize)
    requires
        well_formed(board@),
        k < filled_count(grid_of(board@)),
    ensures
        p < 81,
        grid_of(board@)[p as int] != 0,
        filled_below(grid_of(board@), p as int) == k,
{
    let ghost g = grid_of(board@);
    let mut p: usize = 0;
    let mut seen: usize = 0;
    while p < 81
        invariant
            well_formed(board@),
            g == grid_of(board@),
            k < filled_below(g, 81),
            p <= 81,
            seen == filled_below(g, p as int),
            seen <= k,
        decreases 81 - p,
    {
        if board[p / 9][p % 9] != 0 {
            if seen == k {
                return p;
            }
            seen += 1;
        }
        p += 1;
    }
    p
}

/// Fills the first row with a random arrangement of 1..=9 and the rest of
/// the first column with digits drawn among each cell's candidates.
fn random_seed(row: &Vec<u8>) -> (board: Vec<Vec<u8>>)
    requires
        row@.len() == 9,
        row@.no_duplicates(),
        forall|k: int| 0 <= k < 9 ==> 1 <= #[trigger] row@[k] <= 9,
    ensures
        well_formed(board@),
        consistent(grid_of(board@)),
{
    let mut board = grid_with_first_row(row);
    let mut i: usize = 1;
    while i < 9
        invariant
            1 <= i <= 9,
            well_formed(board@),
            consistent(grid_of(board@)),
        decreases 9 - i,
    {
        let suggestions = get_suggestions(&board, i, 0);
        // the seed so far always leaves a candidate here; were there none,
        // the cell would stay empty
        if suggestions.len() > 0 {
            let index = random_below(suggestions.len());
            let d = suggestions[index];
            proof {
                lemma_candidates_upto(grid_of(board@), (i * 9) as int, 9);
                lemma_place_keeps_consistent(grid_of(board@), (i * 9) as int, d);
            }
            set_cell(&mut board, i, 0, d);
        }
        i += 1;
    }
    board
}

/// Generates a puzzle of the given level together with the solution it was
/// carved from. The solution is a random full grid; the puzzle keeps
/// `difficulty.clue_count()` of its cells and empties the others.
pub fn generate_puzzle(difficulty: Difficulty) -> (result: (Vec<Vec<u8>>, Vec<Vec<u8>>))
    ensures
        well_formed(result.0@),
        well_formed(result.1@),
        is_solution(grid_of(result.1@)),
        filled_count(grid_of(result.0@)) == difficulty.clue_count(),
        forall|i: int|
            0 <= i < 81 && #[trigger] grid_of(result.0@)[i] != 0 ==> grid_of(result.0@)[i]
                == grid_of(result.1@)[i],
{
    let row = random_first_row();
    let mut solution = random_seed(&row);
    if !solve_sudoku(&mut solution, true) {
        // a seed the search cannot complete: start again from the first row
        // alone, which always has a completion
        solution = grid_with_first_row(&row);
        proof {
            lemma_first_row_completes(row@);
            assert(consistent(first_row_grid(row@))) by {
                assert forall|p: int, q: int|
                    0 <= p < 81 && #[trigger] is_peer(p, q) && first_row_grid(row@)[p]
                        != 0 implies first_row_grid(row@)[p] != first_row_grid(row@)[q] by {
                    assert(is_solution(banded(row@)));
                    assert(banded(row@)[p] == first_row_grid(row@)[p]);
                    if q < 9 {
                        assert(banded(row@)[q] == first_row_grid(row@)[q]);
                    }
                }
            }
        }
        let found = solve_sudoku(&mut solution, true);
        assert(found);
    }
    let clues = difficulty.clues();
    let number_to_remove: usize = 81 - clues;
    let mut puzzle = copy_grid(&solution);
    proof {
        lemma_filled_below_full(grid_of(puzzle@), 81);
    }
    // Each step empties a cell drawn uniformly among the filled ones, as
    // drawing among all 81 cells until a filled one comes up would.
    let mut removed: usize = 0;
    while removed < number_to_remove
        invariant
            well_formed(puzzle@),
            well_formed(solution@),
            removed <= number_to_remove,
            number_to_remove == 81 - clues,
            clues == difficulty.clue_count(),
            filled_count(grid_of(puzzle@)) == 81 - removed,
            forall|i: int|
                0 <= i < 81 && #[trigger] grid_of(puzzle@)[i] != 0 ==> grid_of(puzzle@)[i]
                    == grid_of(solution@)[i],
        decreases number_to_remove - removed,
    {
        let k = random_below(81 - removed);
        let index = nth_filled(&puzzle, k);
        proof {
            lemma_filled_below_clear(grid_of(puzzle@), index as int, 81);
        }
        set_cell(&mut puzzle, index / 9, index % 9, 0);
        removed += 1;
    }
    (puzzle, solution)
}

/// Generates a puzzle of the given level: `difficulty.clue_count()` filled
/// cells, and a completion of them exists.
pub fn generate_sudoku(difficulty: Difficulty) -> (board: Vec<Vec<u8>>)
    ensures
        well_formed(board@),
        filled_count(grid_of(board@)) == difficulty.clue_count(),
        exists|s: Seq<u8>| completes(s, grid_of(board@)),
{
    let (puzzle, solution) = generate_puzzle(difficulty);
    assert(completes(grid_of(solution@), grid_of(puzzle@)));
    puzzle
}

} // verus!
