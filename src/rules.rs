//! The grid model shared by the solver, the generator and the board.
//!
//! A grid is modelled as a flat sequence of 81 digits in row-major order:
//! position `p` lies in row `p / 9` and column `p % 9`; `0` means empty.
use vstd::prelude::*;

verus! {

/// The 81 cells of a nested 9x9 grid, row-major.
pub open spec fn grid_of(b: Seq<Vec<u8>>) -> Seq<u8> {
    Seq::new(81, |i: int| b[i / 9]@[i % 9])
}

/// A nested grid with 9 rows of 9 cells, each a digit in 0..=9.
pub open spec fn well_formed(b: Seq<Vec<u8>>) -> bool {
    &&& b.len() == 9
    &&& forall|r: int| 0 <= r < 9 ==> (#[trigger] b[r])@.len() == 9
    &&& digits_in_range(grid_of(b))
}

/// Every cell holds a digit in 0..=9.
pub open spec fn digits_in_range(g: Seq<u8>) -> bool {
    &&& g.len() == 81
    &&& forall|i: int| 0 <= i < 81 ==> #[trigger] g[i] <= 9
}

/// Positions `p` and `q` share a row, a column or a 3x3 box.
pub open spec fn same_house(p: int, q: int) -> bool {
    ||| p / 9 == q / 9
    ||| p % 9 == q % 9
    ||| ((p / 9) / 3 == (q / 9) / 3 && (p % 9) / 3 == (q % 9) / 3)
}

/// `q` is a peer of `p`: another cell of one of its houses.
pub open spec fn is_peer(p: int, q: int) -> bool {
    0 <= q < 81 && q != p && same_house(p, q)
}

/// No peer of `p` holds `d`.
pub open spec fn can_place(g: Seq<u8>, p: int, d: u8) -> bool {
    forall|q: int| #[trigger] is_peer(p, q) ==> g[q] != d
}

/// No two peers hold the same nonzero digit.
pub open spec fn consistent(g: Seq<u8>) -> bool {
    forall|p: int, q: int|
        0 <= p < 81 && #[trigger] is_peer(p, q) && g[p] != 0 ==> g[p] != g[q]
}

/// A completely filled grid that breaks no rule.
pub open spec fn is_solution(g: Seq<u8>) -> bool {
    &&& g.len() == 81
    &&& forall|i: int| 0 <= i < 81 ==> 1 <= #[trigger] g[i] <= 9
    &&& consistent(g)
}

/// `s` is a solution that keeps every filled cell of `g`.
pub open spec fn completes(s: Seq<u8>, g: Seq<u8>) -> bool {
    &&& is_solution(s)
    &&& forall|i: int| 0 <= i < 81 && #[trigger] g[i] != 0 ==> s[i] == g[i]
}

/// Whether a cell of the 3x3 box of (`row`, `col`) outside its row and
/// column holds `ch`.
fn box_conflict(board: &Vec<Vec<u8>>, row: usize, col: usize, ch: u8) -> (r: bool)
    requires
        well_formed(board@),
        row < 9,
        col < 9,
    ensures
        r <==> exists|q: int|
            0 <= q < 81 && (q / 9) / 3 == row / 3 && (q % 9) / 3 == col / 3 && q / 9 != row && q
                % 9 != col && #[trigger] grid_of(board@)[q] == ch,
{
    let ghost g = grid_of(board@);
    let box_i: usize = (row / 3) * 3;
    let box_j: usize = (col / 3) * 3;
    let mut i: usize = 0;
    while i < 3
        invariant
            well_formed(board@),
            g == grid_of(board@),
            row < 9,
            col < 9,
            i <= 3,
            box_i == (row / 3) * 3,
            box_j == (col / 3) * 3,
            forall|q: int|
                0 <= q < 81 && (q / 9) / 3 == row / 3 && (q % 9) / 3 == col / 3 && q / 9 < box_i + i
                    && q / 9 != row && q % 9 != col ==> g[q] != ch,
        decreases 3 - i,
    {
        let mut j: usize = 0;
        while j < 3
            invariant
                well_formed(board@),
                g == grid_of(board@),
                row < 9,
                col < 9,
                i < 3,
                j <= 3,
                box_i == (row / 3) * 3,
                box_j == (col / 3) * 3,
                forall|q: int|
                    0 <= q < 81 && (q / 9) / 3 == row / 3 && (q % 9) / 3 == col / 3 && q / 9 < box_i
                        + i && q / 9 != row && q % 9 != col ==> g[q] != ch,
                forall|q: int|
                    0 <= q < 81 && q / 9 == box_i + i && (q % 9) / 3 == col / 3 && q % 9 < box_j
                        + j && q / 9 != row && q % 9 != col ==> g[q] != ch,
            decreases 3 - j,
        {
            if row != i + box_i && col != j + box_j && board[i + box_i][j + box_j] == ch {
                assert(g[(box_i + i) * 9 + box_j + j] == ch);
                return true;
            }
            j += 1;
        }
        i += 1;
    }
    false
}

/// Decides whether `ch` may stand at (`row`, `col`): true iff no other cell
/// of the same row, column or 3x3 box holds `ch`.
pub fn is_valid(board: &Vec<Vec<u8>>, row: usize, col: usize, ch: u8) -> (r: bool)
    requires
        well_formed(board@),
        row < 9,
        col < 9,
    ensures
        r == can_place(grid_of(board@), row * 9 + col, ch),
{
    let ghost g = grid_of(board@);
    let ghost p = row * 9 + col;
    let mut i: usize = 0;
    while i < 9
        invariant
            well_formed(board@),
            g == grid_of(board@),
            p == row * 9 + col,
            row < 9,
            col < 9,
            i <= 9,
            forall|q: int| 0 <= q < 81 && q / 9 == row && q % 9 < i && q != p ==> g[q] != ch,
        decreases 9 - i,
    {
        if i != col && board[row][i] == ch {
            assert(is_peer(p, row * 9 + i));
            assert(g[row * 9 + i] == ch);
            return false;
        }
        i += 1;
    }
    let mut i: usize = 0;
    while i < 9
        invariant
            well_formed(board@),
            g == grid_of(board@),
            p == row * 9 + col,
            row < 9,
            col < 9,
            i <= 9,
            forall|q: int| 0 <= q < 81 && q / 9 == row && q != p ==> g[q] != ch,
            forall|q: int| 0 <= q < 81 && q % 9 == col && q / 9 < i && q != p ==> g[q] != ch,
        decreases 9 - i,
    {
        if i != row && board[i][col] == ch {
            assert(is_peer(p, i * 9 + col));
            assert(g[i * 9 + col] == ch);
            return false;
        }
        i += 1;
    }
    if box_conflict(board, row, col, ch) {
        proof {
            let q = choose|q: int|
                0 <= q < 81 && (q / 9) / 3 == row / 3 && (q % 9) / 3 == col / 3 && q / 9 != row && q
                    % 9 != col && #[trigger] grid_of(board@)[q] == ch;
            assert(is_peer(p, q));
        }
        return false;
    }
    assert forall|q: int| #[trigger] is_peer(p, q) implies g[q] != ch by {
        if q / 9 != row && q % 9 != col {
            assert((q / 9) / 3 == row / 3 && (q % 9) / 3 == col / 3);
        }
    }
    true
}

/// The digits among `1..=n` that may stand at `p`, in ascending order.
pub open spec fn candidates_upto(g: Seq<u8>, p: int, n: int) -> Seq<u8>
    decreases n,
{
    if n <= 0 {
        Seq::empty()
    } else if can_place(g, p, n as u8) {
        candidates_upto(g, p, n - 1).push(n as u8)
    } else {
        candidates_upto(g, p, n - 1)
    }
}

/// The digits that may stand at `p`, in ascending order.
pub open spec fn candidates(g: Seq<u8>, p: int) -> Seq<u8> {
    candidates_upto(g, p, 9)
}

/// Lists, in ascending order, the digits 1..=9 that may stand at (`row`, `col`).
pub fn get_suggestions(board: &Vec<Vec<u8>>, row: usize, col: usize) -> (r: Vec<u8>)
    requires
        well_formed(board@),
        row < 9,
        col < 9,
    ensures
        r@ == candidates(grid_of(board@), row * 9 + col),
{
    let mut suggestions: Vec<u8> = Vec::new();
    let mut i: u8 = 1;
    while i < 10
        invariant
            well_formed(board@),
            row < 9,
            col < 9,
            1 <= i <= 10,
            suggestions@ == candidates_upto(grid_of(board@), row * 9 + col, i - 1),
        decreases 10 - i,
    {
        if is_valid(board, row, col, i) {
            suggestions.push(i);
        }
        i += 1;
    }
    suggestions
}

/// Writes `v` into the cell at (`row`, `col`).
pub(crate) fn set_cell(board: &mut Vec<Vec<u8>>, row: usize, col: usize, v: u8)
    requires
        well_formed(old(board)@),
        row < 9,
        col < 9,
        v <= 9,
    ensures
        well_formed(final(board)@),
        grid_of(final(board)@) == grid_of(old(board)@).update(row * 9 + col, v),
{
    let ghost g = grid_of(board@);
    board[row][col] = v;
    assert forall|r: int| 0 <= r < 9 implies (#[trigger] board@[r])@.len() == 9 by {}
    assert(grid_of(board@) =~= g.update(row * 9 + col, v));
}

/// The nine cells of row `r`.
pub open spec fn row_cells(g: Seq<u8>, r: int) -> Seq<u8> {
    Seq::new(9, |c: int| g[r * 9 + c])
}

/// The nine cells of column `c`.
pub open spec fn col_cells(g: Seq<u8>, c: int) -> Seq<u8> {
    Seq::new(9, |r: int| g[r * 9 + c])
}

/// The nine cells of box `b`, boxes numbered row-major from the top left.
pub open spec fn box_cells(g: Seq<u8>, b: int) -> Seq<u8> {
    Seq::new(9, |k: int| g[((b / 3) * 3 + k / 3) * 9 + (b % 3) * 3 + k % 3])
}

/// Nine distinct digits from 1..=9, i.e. an arrangement of all of them.
pub open spec fn is_digit_permutation(u: Seq<u8>) -> bool {
    &&& u.len() == 9
    &&& u.no_duplicates()
    &&& forall|k: int| 0 <= k < 9 ==> 1 <= #[trigger] u[k] <= 9
}

/// In a solution every row, every column and every 3x3 box is a
/// permutation of the digits 1..=9.
pub proof fn lemma_solution_houses_are_permutations(g: Seq<u8>)
    requires
        is_solution(g),
    ensures
        forall|r: int| 0 <= r < 9 ==> is_digit_permutation(#[trigger] row_cells(g, r)),
        forall|c: int| 0 <= c < 9 ==> is_digit_permutation(#[trigger] col_cells(g, c)),
        forall|b: int| 0 <= b < 9 ==> is_digit_permutation(#[trigger] box_cells(g, b)),
{
    assert forall|r: int| 0 <= r < 9 implies is_digit_permutation(#[trigger] row_cells(g, r)) by {
        let u = row_cells(g, r);
        assert forall|i: int, j: int| 0 <= i < 9 && 0 <= j < 9 && i != j implies u[i] != u[j] by {
            assert(is_peer(r * 9 + i, r * 9 + j));
        }
    }
    assert forall|c: int| 0 <= c < 9 implies is_digit_permutation(#[trigger] col_cells(g, c)) by {
        let u = col_cells(g, c);
        assert forall|i: int, j: int| 0 <= i < 9 && 0 <= j < 9 && i != j implies u[i] != u[j] by {
            assert(is_peer(i * 9 + c, j * 9 + c));
        }
    }
    assert forall|b: int| 0 <= b < 9 implies is_digit_permutation(#[trigger] box_cells(g, b)) by {
        let u = box_cells(g, b);
        assert forall|i: int, j: int| 0 <= i < 9 && 0 <= j < 9 && i != j implies u[i] != u[j] by {
            let p = ((b / 3) * 3 + i / 3) * 9 + (b % 3) * 3 + i % 3;
            let q = ((b / 3) * 3 + j / 3) * 9 + (b % 3) * 3 + j % 3;
            assert(p / 9 == (b / 3) * 3 + i / 3 && p % 9 == (b % 3) * 3 + i % 3);
            assert(q / 9 == (b / 3) * 3 + j / 3 && q % 9 == (b % 3) * 3 + j % 3);
            assert(p != q);
            assert(is_peer(p, q));
        }
    }
}

/// Placing a digit where no peer holds it keeps a grid consistent.
pub proof fn lemma_place_keeps_consistent(g: Seq<u8>, p: int, d: u8)
    requires
        g.len() == 81,
        0 <= p < 81,
        consistent(g),
        can_place(g, p, d),
    ensures
        consistent(g.update(p, d)),
{
    let g2 = g.update(p, d);
    assert forall|a: int, b: int| 0 <= a < 81 && #[trigger] is_peer(a, b) && g2[a] != 0 implies g2[a]
        != g2[b] by {
        if a == p {
            assert(g[b] != d);
        } else if b == p {
            assert(is_peer(p, a));
        }
    }
}

/// Every digit listed by `candidates_upto` lies in 1..=n and may stand at `p`.
pub proof fn lemma_candidates_upto(g: Seq<u8>, p: int, n: int)
    requires
        n <= 9,
    ensures
        forall|k: int|
            0 <= k < candidates_upto(g, p, n).len() ==> 1 <= #[trigger] candidates_upto(g, p, n)[k]
                <= n && can_place(g, p, candidates_upto(g, p, n)[k]),
    decreases n,
{
    if n > 0 {
        lemma_candidates_upto(g, p, n - 1);
        let prev = candidates_upto(g, p, n - 1);
        let cur = candidates_upto(g, p, n);
        assert forall|k: int| 0 <= k < cur.len() implies 1 <= #[trigger] cur[k] <= n && can_place(
            g,
            p,
            cur[k],
        ) by {
            if k < prev.len() {
                assert(cur[k] == prev[k]);
            } else {
                assert(cur[k] == n as u8);
            }
        }
    }
}

} // verus!
