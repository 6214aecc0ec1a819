//! Iterative backtracking search with an explicit stack of decisions.
//!
//! The search visits candidate grids in a fixed order: empty cells in
//! row-major order, digits in ascending or descending order. Its state is a
//! cursor, a flag telling whether the cursor has just come back to a cell to
//! try its next digit, and the stack of cells filled so far.
use vstd::arithmetic::power::*;
use vstd::prelude::*;
use crate::rules::{
    can_place, completes, consistent, digits_in_range, grid_of, is_peer, is_solution, is_valid,
    lemma_place_keeps_consistent, set_cell, well_formed,
};

verus! {

/// Position of digit `d` in the order in which the search tries digits.
pub open spec fn rank(d: u8, reverse: bool) -> int {
    if reverse {
        9 - d
    } else {
        d - 1
    }
}

/// The search tries `x` before `y`.
pub open spec fn scan_before(x: u8, y: u8, reverse: bool) -> bool {
    rank(x, reverse) < rank(y, reverse)
}

/// `d` comes after `from` in the order of the search; `from == 0` means that
/// no digit has been tried yet.
pub open spec fn scan_after(d: u8, from: u8, reverse: bool) -> bool {
    from == 0 || scan_before(from, d, reverse)
}

/// `s` and `g` agree on every cell before position `p`.
pub open spec fn agree_below(s: Seq<u8>, g: Seq<u8>, p: int) -> bool {
    forall|i: int| 0 <= i < p ==> s[i] == g[i]
}

/// On the cells before `p`, grid `s` comes before grid `g` in the order of
/// the search.
pub open spec fn precedes_below(s: Seq<u8>, g: Seq<u8>, p: int, reverse: bool) -> bool {
    exists|q: int| 0 <= q < p && agree_below(s, g, q) && #[trigger] scan_before(s[q], g[q], reverse)
}

/// Shape of a search state on grid `g0`: the cells before the cursor are
/// filled, the empty cells of `g0` after it are still empty, and `stack`
/// lists, in increasing order, the empty cells of `g0` before the cursor.
spec fn search_state(g0: Seq<u8>, g: Seq<u8>, pos: int, backtrack: bool, stack: Seq<usize>) -> bool {
    &&& g0.len() == 81
    &&& digits_in_range(g)
    &&& consistent(g)
    &&& 0 <= pos <= 81
    &&& backtrack ==> pos < 81 && g0[pos] == 0 && g[pos] != 0
    &&& !backtrack && pos < 81 && g0[pos] == 0 ==> g[pos] == 0
    &&& forall|i: int| 0 <= i < 81 && g0[i] != 0 ==> #[trigger] g[i] == g0[i]
    &&& forall|i: int| 0 <= i < pos ==> #[trigger] g[i] != 0
    &&& forall|i: int| pos < i < 81 && #[trigger] g0[i] == 0 ==> g[i] == 0
    &&& forall|k: int| 0 <= k < stack.len() ==> #[trigger] stack[k] < pos && g0[stack[k] as int] == 0
    &&& forall|k: int, l: int| 0 <= k < l < stack.len() ==> #[trigger] stack[k] < #[trigger] stack[l]
    &&& forall|i: int| 0 <= i < pos && #[trigger] g0[i] == 0 ==> stack.contains(i as usize)
}

/// No solution of `g0` has been passed over: none comes before the state.
spec fn nothing_skipped(g0: Seq<u8>, g: Seq<u8>, pos: int, backtrack: bool, reverse: bool) -> bool {
    if backtrack {
        forall|s: Seq<u8>|
            #[trigger] completes(s, g0) ==> !precedes_below(s, g, pos + 1, reverse) && !agree_below(
                s,
                g,
                pos + 1,
            )
    } else {
        forall|s: Seq<u8>| #[trigger] completes(s, g0) ==> !precedes_below(s, g, pos, reverse)
    }
}

/// Weight of the digits chosen before `p`: each empty cell `q` of `g0`
/// counts the rank of its digit plus one, times 11 to the power `81 - q`.
spec fn progress(g0: Seq<u8>, g: Seq<u8>, p: int, reverse: bool) -> int
    decreases p,
{
    if p <= 0 {
        0
    } else {
        progress(g0, g, p - 1, reverse) + if g0[p - 1] == 0 {
            (rank(g[p - 1], reverse) + 1) * pow(11, (82 - p) as nat)
        } else {
            0
        }
    }
}

/// How far the search has gone; it grows at every step but skipping a given
/// cell. Coming back to a cell counts as having tried every digit of the
/// cell after it.
spec fn measure(g0: Seq<u8>, g: Seq<u8>, pos: int, backtrack: bool, reverse: bool) -> int {
    if backtrack {
        progress(g0, g, pos + 1, reverse) + 10 * pow(11, (80 - pos) as nat)
    } else {
        progress(g0, g, pos, reverse)
    }
}

proof fn lemma_pow_step(e: nat)
    ensures
        pow(11, e + 1) == 11 * pow(11, e),
        pow(11, e) > 0,
{
    reveal(pow);
    lemma_pow_positive(11, e);
}

proof fn lemma_progress_frame(g0: Seq<u8>, g: Seq<u8>, h: Seq<u8>, p: int, reverse: bool)
    requires
        forall|i: int| 0 <= i < p ==> g[i] == h[i],
    ensures
        progress(g0, g, p, reverse) == progress(g0, h, p, reverse),
    decreases p,
{
    if p > 0 {
        lemma_progress_frame(g0, g, h, p - 1, reverse);
    }
}

proof fn lemma_progress_skip(g0: Seq<u8>, g: Seq<u8>, a: int, b: int, reverse: bool)
    requires
        0 <= a <= b,
        forall|i: int| a <= i < b ==> g0[i] != 0,
    ensures
        progress(g0, g, b, reverse) == progress(g0, g, a, reverse),
    decreases b - a,
{
    if b > a {
        lemma_progress_skip(g0, g, a, b - 1, reverse);
    }
}

proof fn lemma_progress_bound(g0: Seq<u8>, g: Seq<u8>, p: int, reverse: bool)
    requires
        0 <= p <= 81,
        g0.len() == 81,
        g.len() == 81,
        forall|i: int| 0 <= i < p ==> 1 <= #[trigger] g[i] <= 9,
    ensures
        progress(g0, g, p, reverse) + pow(11, (82 - p) as nat) <= pow(11, 82),
    decreases p,
{
    if p > 0 {
        lemma_progress_bound(g0, g, p - 1, reverse);
        let w = pow(11, (82 - p) as nat);
        lemma_pow_step((82 - p) as nat);
        if g0[p - 1] == 0 {
            let k = rank(g[p - 1], reverse) + 1;
            assert(1 <= k <= 9);
            assert(k * w <= 9 * w) by (nonlinear_arith)
                requires
                    k <= 9,
                    w > 0,
            ;
        }
    }
}

/// Scans the digits after `from` in the order of the search and returns the
/// first one that may stand at (`row`, `col`), or 0 where none may.
fn next_candidate(board: &Vec<Vec<u8>>, row: usize, col: usize, from: u8, reverse: bool) -> (r: u8)
    requires
        well_formed(board@),
        row < 9,
        col < 9,
        from <= 9,
    ensures
        r <= 9,
        r != 0 ==> scan_after(r, from, reverse) && can_place(grid_of(board@), row * 9 + col, r),
        forall|d: u8|
            1 <= d <= 9 && scan_after(d, from, reverse) && (r == 0 || scan_before(d, r, reverse))
                ==> !can_place(grid_of(board@), row * 9 + col, d),
{
    let mut d: u8 = if reverse {
        if from == 0 {
            9
        } else {
            from - 1
        }
    } else {
        from + 1
    };
    while d != 0 && d != 10
        invariant
            well_formed(board@),
            row < 9,
            col < 9,
            from <= 9,
            d <= 10,
            d != 0 && d != 10 ==> scan_after(d, from, reverse),
            reverse ==> d < 10,
            !reverse ==> d > 0,
            forall|e: u8|
                1 <= e <= 9 && scan_after(e, from, reverse) && scan_before(e, d, reverse)
                    ==> !can_place(grid_of(board@), row * 9 + col, e),
        decreases if reverse {
            d as int
        } else {
            10 - d
        },
    {
        if is_valid(board, row, col, d) {
            return d;
        }
        if reverse {
            d = d - 1;
        } else {
            d = d + 1;
        }
    }
    0
}

/// A grid with `d` at `p` is no solution of `g0` where a filled peer of `p`
/// already holds `d`, as long as the cells before `p` agree with that grid
/// and the empty cells of `g0` after `p` are still empty.
proof fn lemma_blocked(g0: Seq<u8>, g: Seq<u8>, s: Seq<u8>, p: int, d: u8)
    requires
        g0.len() == 81,
        g.len() == 81,
        0 <= p < 81,
        agree_below(s, g, p),
        s[p] == d,
        !can_place(g, p, d),
        forall|i: int| 0 <= i < 81 && g0[i] != 0 ==> #[trigger] g[i] == g0[i],
        forall|i: int| p < i < 81 && #[trigger] g0[i] == 0 ==> g[i] == 0,
    ensures
        !completes(s, g0),
{
    if completes(s, g0) {
        let q = choose|q: int| #[trigger] is_peer(p, q) && g[q] == d;
        assert(1 <= s[p] <= 9);
        if q < p {
            assert(s[q] == g[q]);
        } else {
            assert(g0[q] != 0);
            assert(s[q] == g0[q]);
        }
    }
}

/// Where the scan from `from` found nothing up to `d`, no solution of `g0`
/// that agrees with the state before `pos` has a digit at `pos` tried before
/// `d`; where it found nothing at all, no such solution exists.
proof fn lemma_not_here(
    g0: Seq<u8>,
    g: Seq<u8>,
    s: Seq<u8>,
    pos: int,
    backtrack: bool,
    stack: Seq<usize>,
    reverse: bool,
    from: u8,
    d: u8,
)
    requires
        search_state(g0, g, pos, backtrack, stack),
        nothing_skipped(g0, g, pos, backtrack, reverse),
        pos < 81,
        g0[pos] == 0,
        from == if backtrack {
            g[pos]
        } else {
            0
        },
        forall|e: u8|
            1 <= e <= 9 && scan_after(e, from, reverse) && (d == 0 || scan_before(e, d, reverse))
                ==> !can_place(g, pos, e),
        completes(s, g0),
        agree_below(s, g, pos),
    ensures
        d != 0,
        !scan_before(s[pos], d, reverse),
{
    let e = s[pos];
    assert(1 <= e <= 9);
    if backtrack {
        if e == g[pos] {
            assert(agree_below(s, g, pos + 1));
        } else if scan_before(e, g[pos], reverse) {
            assert(precedes_below(s, g, pos + 1, reverse));
        }
    }
    if d == 0 || scan_before(e, d, reverse) {
        assert(!can_place(g, pos, e));
        lemma_blocked(g0, g, s, pos, e);
    }
}

proof fn lemma_skip(g0: Seq<u8>, g: Seq<u8>, pos: int, stack: Seq<usize>, reverse: bool)
    requires
        search_state(g0, g, pos, false, stack),
        nothing_skipped(g0, g, pos, false, reverse),
        pos < 81,
        g[pos] != 0,
    ensures
        search_state(g0, g, pos + 1, false, stack),
        nothing_skipped(g0, g, pos + 1, false, reverse),
        measure(g0, g, pos + 1, false, reverse) == measure(g0, g, pos, false, reverse),
{
    assert(g0[pos] != 0);
    assert forall|s: Seq<u8>| #[trigger] completes(s, g0) implies !precedes_below(
        s,
        g,
        pos + 1,
        reverse,
    ) by {
        if precedes_below(s, g, pos + 1, reverse) {
            let q = choose|q: int|
                0 <= q < pos + 1 && agree_below(s, g, q) && #[trigger] scan_before(
                    s[q],
                    g[q],
                    reverse,
                );
            if q < pos {
                assert(precedes_below(s, g, pos, reverse));
            } else {
                assert(s[pos] == g0[pos]);
            }
        }
    }
}

proof fn lemma_place(
    g0: Seq<u8>,
    g: Seq<u8>,
    pos: int,
    backtrack: bool,
    stack: Seq<usize>,
    reverse: bool,
    from: u8,
    d: u8,
)
    requires
        search_state(g0, g, pos, backtrack, stack),
        nothing_skipped(g0, g, pos, backtrack, reverse),
        measure(g0, g, pos, backtrack, reverse) <= pow(11, 82),
        pos < 81,
        g0[pos] == 0,
        from == if backtrack {
            g[pos]
        } else {
            0
        },
        1 <= d <= 9,
        scan_after(d, from, reverse),
        can_place(g, pos, d),
        forall|e: u8|
            1 <= e <= 9 && scan_after(e, from, reverse) && scan_before(e, d, reverse) ==> !can_place(
                g,
                pos,
                e,
            ),
    ensures
        search_state(g0, g.update(pos, d), pos + 1, false, stack.push(pos as usize)),
        nothing_skipped(g0, g.update(pos, d), pos + 1, false, reverse),
        measure(g0, g, pos, backtrack, reverse) < measure(
            g0,
            g.update(pos, d),
            pos + 1,
            false,
            reverse,
        ),
        measure(g0, g.update(pos, d), pos + 1, false, reverse) <= pow(11, 82),
{
    let g2 = g.update(pos, d);
    let stack2 = stack.push(pos as usize);
    lemma_place_keeps_consistent(g, pos, d);
    assert forall|i: int| 0 <= i < pos + 1 && #[trigger] g0[i] == 0 implies stack2.contains(
        i as usize,
    ) by {
        if i < pos {
            let k = choose|k: int| 0 <= k < stack.len() && stack[k] == i as usize;
            assert(stack2[k] == i as usize);
        } else {
            assert(stack2[stack.len() as int] == i as usize);
        }
    }
    assert(search_state(g0, g2, pos + 1, false, stack2));
    assert forall|s: Seq<u8>| #[trigger] completes(s, g0) implies !precedes_below(
        s,
        g2,
        pos + 1,
        reverse,
    ) by {
        if precedes_below(s, g2, pos + 1, reverse) {
            let q = choose|q: int|
                0 <= q < pos + 1 && agree_below(s, g2, q) && #[trigger] scan_before(
                    s[q],
                    g2[q],
                    reverse,
                );
            assert(agree_below(s, g, q));
            if q < pos {
                assert(scan_before(s[q], g[q], reverse));
                assert(precedes_below(s, g, pos, reverse));
                assert(precedes_below(s, g, pos + 1, reverse));
            } else {
                lemma_not_here(g0, g, s, pos, backtrack, stack, reverse, from, d);
            }
        }
    }
    // the measure grows
    let w = pow(11, (80 - pos) as nat);
    lemma_pow_step((80 - pos) as nat);
    lemma_progress_frame(g0, g, g2, pos, reverse);
    assert(progress(g0, g2, pos + 1, reverse) == progress(g0, g, pos, reverse) + (rank(d, reverse)
        + 1) * (11 * w));
    let kd = rank(d, reverse) + 1;
    if backtrack {
        let ka = rank(g[pos], reverse) + 1;
        assert(progress(g0, g, pos + 1, reverse) == progress(g0, g, pos, reverse) + ka * (11 * w));
        assert(ka + 1 <= kd);
        assert(ka * (11 * w) + 10 * w < kd * (11 * w)) by (nonlinear_arith)
            requires
                ka + 1 <= kd,
                w > 0,
        ;
    } else {
        assert(kd * (11 * w) > 0) by (nonlinear_arith)
            requires
                kd >= 1,
                w > 0,
        ;
    }
    lemma_progress_bound(g0, g2, pos + 1, reverse);
}

proof fn lemma_retreat(
    g0: Seq<u8>,
    g: Seq<u8>,
    pos: int,
    backtrack: bool,
    stack: Seq<usize>,
    reverse: bool,
    from: u8,
)
    requires
        search_state(g0, g, pos, backtrack, stack),
        nothing_skipped(g0, g, pos, backtrack, reverse),
        measure(g0, g, pos, backtrack, reverse) <= pow(11, 82),
        pos < 81,
        g0[pos] == 0,
        from == if backtrack {
            g[pos]
        } else {
            0
        },
        forall|e: u8| 1 <= e <= 9 && scan_after(e, from, reverse) ==> !can_place(g, pos, e),
        stack.len() > 0,
    ensures
        search_state(g0, g.update(pos, 0), stack.last() as int, true, stack.drop_last()),
        nothing_skipped(g0, g.update(pos, 0), stack.last() as int, true, reverse),
        measure(g0, g, pos, backtrack, reverse) < measure(
            g0,
            g.update(pos, 0),
            stack.last() as int,
            true,
            reverse,
        ),
        measure(g0, g.update(pos, 0), stack.last() as int, true, reverse) <= pow(11, 82),
{
    let g2 = g.update(pos, 0);
    let n = stack.len() - 1;
    let last = stack.last() as int;
    let stack2 = stack.drop_last();
    assert(stack[n] < pos);
    assert forall|i: int| last < i < pos implies #[trigger] g0[i] != 0 by {
        if g0[i] == 0 {
            let k = choose|k: int| 0 <= k < stack.len() && stack[k] == i as usize;
            if k < n {
                assert(stack[k] < stack[n]);
            }
        }
    }
    assert(consistent(g2)) by {
        assert forall|p: int, q: int|
            0 <= p < 81 && #[trigger] is_peer(p, q) && g2[p] != 0 implies g2[p] != g2[q] by {
            if q == pos {
                assert(g2[q] == 0);
            }
        }
    }
    assert forall|k: int| 0 <= k < stack2.len() implies #[trigger] stack2[k] < last && g0[
        stack2[k] as int] == 0 by {
        assert(stack[k] < stack[n]);
    }
    assert forall|i: int| 0 <= i < last && #[trigger] g0[i] == 0 implies stack2.contains(
        i as usize,
    ) by {
        let k = choose|k: int| 0 <= k < stack.len() && stack[k] == i as usize;
        assert(k != n);
        assert(stack2[k] == i as usize);
    }
    assert forall|i: int| last < i < 81 && #[trigger] g0[i] == 0 implies g2[i] == 0 by {
        if i < pos {
            assert(g0[i] != 0);
        }
    }
    assert(search_state(g0, g2, last, true, stack2));
    assert forall|s: Seq<u8>| #[trigger] completes(s, g0) implies !precedes_below(
        s,
        g2,
        last + 1,
        reverse,
    ) && !agree_below(s, g2, last + 1) by {
        if precedes_below(s, g2, last + 1, reverse) {
            let q = choose|q: int|
                0 <= q < last + 1 && agree_below(s, g2, q) && #[trigger] scan_before(
                    s[q],
                    g2[q],
                    reverse,
                );
            assert(agree_below(s, g, q));
            assert(scan_before(s[q], g[q], reverse));
            assert(precedes_below(s, g, pos, reverse));
            assert(precedes_below(s, g, pos + 1, reverse));
        }
        if agree_below(s, g2, last + 1) {
            assert forall|i: int| 0 <= i < pos implies s[i] == g[i] by {
                if i > last {
                    assert(g0[i] != 0);
                    assert(s[i] == g0[i]);
                } else {
                    assert(s[i] == g2[i]);
                }
            }
            lemma_not_here(g0, g, s, pos, backtrack, stack, reverse, from, 0);
        }
    }
    // the measure grows
    let w = pow(11, (80 - pos) as nat);
    let v = pow(11, (80 - last) as nat);
    lemma_pow_step((80 - pos) as nat);
    lemma_pow_step((80 - last) as nat);
    lemma_pow_increases(11, (81 - pos) as nat, (80 - last) as nat);
    lemma_progress_frame(g0, g, g2, last + 1, reverse);
    lemma_progress_skip(g0, g, last + 1, pos, reverse);
    if backtrack {
        let ka = rank(g[pos], reverse) + 1;
        assert(progress(g0, g, pos + 1, reverse) == progress(g0, g, pos, reverse) + ka * (11 * w));
        assert(ka * (11 * w) + 10 * w < 10 * v) by (nonlinear_arith)
            requires
                ka <= 9,
                w > 0,
                11 * w <= v,
        ;
    }
    lemma_progress_bound(g0, g2, last + 1, reverse);
}

/// With no decision left to revise and no digit left to try, the grid has no
/// solution.
proof fn lemma_exhausted(
    g0: Seq<u8>,
    g: Seq<u8>,
    pos: int,
    backtrack: bool,
    stack: Seq<usize>,
    reverse: bool,
    from: u8,
)
    requires
        search_state(g0, g, pos, backtrack, stack),
        nothing_skipped(g0, g, pos, backtrack, reverse),
        pos < 81,
        g0[pos] == 0,
        from == if backtrack {
            g[pos]
        } else {
            0
        },
        forall|e: u8| 1 <= e <= 9 && scan_after(e, from, reverse) ==> !can_place(g, pos, e),
        stack.len() == 0,
    ensures
        forall|s: Seq<u8>| !completes(s, g0),
{
    assert forall|s: Seq<u8>| !completes(s, g0) by {
        if completes(s, g0) {
            assert forall|i: int| 0 <= i < pos implies s[i] == g[i] by {
                if g0[i] == 0 {
                    assert(stack.contains(i as usize));
                }
                assert(s[i] == g0[i]);
            }
            lemma_not_here(g0, g, s, pos, backtrack, stack, reverse, from, 0);
        }
    }
}

/// Fills the empty cells of `board` by backtracking search, trying digits in
/// ascending order, or in descending order where `reverse` holds. Returns
/// whether a solution was found; the board then holds it. Where none is
/// found, the grid has no solution.
pub fn solve_sudoku(board: &mut Vec<Vec<u8>>, reverse: bool) -> (solved: bool)
    requires
        well_formed(old(board)@),
        consistent(grid_of(old(board)@)),
    ensures
        well_formed(final(board)@),
        solved ==> completes(grid_of(final(board)@), grid_of(old(board)@)),
        !solved ==> forall|s: Seq<u8>| !completes(s, grid_of(old(board)@)),
        forall|i: int|
            0 <= i < 81 && #[trigger] grid_of(old(board)@)[i] != 0 ==> grid_of(final(board)@)[i]
                == grid_of(old(board)@)[i],
{
    solve_iteratively(board, reverse)
}

fn solve_iteratively(board: &mut Vec<Vec<u8>>, reverse: bool) -> (solved: bool)
    requires
        well_formed(old(board)@),
        consistent(grid_of(old(board)@)),
    ensures
        well_formed(final(board)@),
        solved ==> completes(grid_of(final(board)@), grid_of(old(board)@)),
        !solved ==> forall|s: Seq<u8>| !completes(s, grid_of(old(board)@)),
        forall|i: int|
            0 <= i < 81 && #[trigger] grid_of(old(board)@)[i] != 0 ==> grid_of(final(board)@)[i]
                == grid_of(old(board)@)[i],
{
    let ghost g0 = grid_of(board@);
    let mut pos: usize = 0;
    let mut backtrack = false;
    let mut stack: Vec<usize> = Vec::new();
    proof {
        lemma_pow_positive(11, 82);
        assert(search_state(g0, g0, 0, false, stack@));
    }
    loop
        invariant
            well_formed(board@),
            g0 == grid_of(old(board)@),
            search_state(g0, grid_of(board@), pos as int, backtrack, stack@),
            nothing_skipped(g0, grid_of(board@), pos as int, backtrack, reverse),
            measure(g0, grid_of(board@), pos as int, backtrack, reverse) <= pow(11, 82),
        decreases pow(11, 82) - measure(g0, grid_of(board@), pos as int, backtrack, reverse),
            81 - pos,
    {
        let ghost g = grid_of(board@);
        if pos == 81 {
            assert(is_solution(g));
            return true;
        }
        let row = pos / 9;
        let col = pos % 9;
        assert(row * 9 + col == pos);
        let cur = board[row][col];
        if cur != 0 && !backtrack {
            proof {
                lemma_skip(g0, g, pos as int, stack@, reverse);
            }
            pos += 1;
        } else {
            assert(g0[pos as int] == 0) by {
                if g0[pos as int] != 0 {
                    assert(g[pos as int] == g0[pos as int]);
                }
            }
            let from = if backtrack {
                cur
            } else {
                0
            };
            let d = next_candidate(board, row, col, from, reverse);
            if d != 0 {
                proof {
                    lemma_place(g0, g, pos as int, backtrack, stack@, reverse, from, d);
                }
                set_cell(board, row, col, d);
                stack.push(pos);
                pos += 1;
                backtrack = false;
            } else if stack.len() == 0 {
                proof {
                    lemma_exhausted(g0, g, pos as int, backtrack, stack@, reverse, from);
                }
                return false;
            } else {
                proof {
                    lemma_retreat(g0, g, pos as int, backtrack, stack@, reverse, from);
                }
                set_cell(board, row, col, 0);
                pos = stack.pop().unwrap();
                backtrack = true;
            }
        }
    }
}

} // verus!
