//! The board as the player edits it: per cell a value, whether it was dealt,
//! pencil marks and a cached validity flag.
use vstd::prelude::*;
use crate::rules::{can_place, is_peer};

verus! {

/// The character that shows digit `d`.
pub open spec fn digit_char(d: int) -> char {
    if d == 1 {
        '1'
    } else if d == 2 {
        '2'
    } else if d == 3 {
        '3'
    } else if d == 4 {
        '4'
    } else if d == 5 {
        '5'
    } else if d == 6 {
        '6'
    } else if d == 7 {
        '7'
    } else if d == 8 {
        '8'
    } else {
        '9'
    }
}

/// Nine mark slots: slot `k` is blank or shows digit `k + 1`.
pub open spec fn marks_wf(m: Seq<char>) -> bool {
    &&& m.len() == 9
    &&& forall|k: int| 0 <= k < 9 ==> #[trigger] m[k] == ' ' || m[k] == digit_char(k + 1)
}

/// Every mark slot is blank.
pub open spec fn no_marks(m: Seq<char>) -> bool {
    &&& m.len() == 9
    &&& forall|k: int| 0 <= k < 9 ==> #[trigger] m[k] == ' '
}

/// Digit `d` is marked.
pub open spec fn marked(m: Seq<char>, d: int) -> bool {
    m[d - 1] != ' '
}

/// The marks with digit `d` flipped.
pub open spec fn toggled(m: Seq<char>, d: int) -> Seq<char> {
    m.update(d - 1, if m[d - 1] == ' ' { digit_char(d) } else { ' ' })
}

/// The marks with digit `d` taken out; `0` takes nothing out.
pub open spec fn without_mark(m: Seq<char>, d: int) -> Seq<char> {
    if d == 0 {
        m
    } else {
        m.update(d - 1, ' ')
    }
}

/// The marks laid out as three lines of three, separated by spaces.
pub open spec fn marks_text(m: Seq<char>) -> Seq<char> {
    seq![
        m[0], ' ', m[1], ' ', m[2], '\n',
        m[3], ' ', m[4], ' ', m[5], '\n',
        m[6], ' ', m[7], ' ', m[8],
    ]
}

/// Toggling the same mark twice gives the marks back.
pub proof fn lemma_toggle_twice(m: Seq<char>, d: int)
    requires
        marks_wf(m),
        1 <= d <= 9,
    ensures
        toggled(toggled(m, d), d) == m,
{
    assert(toggled(toggled(m, d), d) =~= m);
}

/// The character that shows digit `d`.
fn mark_char(d: usize) -> (c: char)
    requires
        1 <= d <= 9,
    ensures
        c == digit_char(d as int),
{
    match d {
        1 => '1',
        2 => '2',
        3 => '3',
        4 => '4',
        5 => '5',
        6 => '6',
        7 => '7',
        8 => '8',
        _ => '9',
    }
}

/// Relies on std's `format!`: the nine marks as three lines of three,
/// separated by single spaces.
#[verifier::external_body]
fn format_marks(m: &Vec<char>) -> (text: String)
    requires
        m@.len() == 9,
    ensures
        text@ == marks_text(m@),
{
    format!("{} {} {}\n{} {} {}\n{} {} {}", m[0], m[1], m[2], m[3], m[4], m[5], m[6], m[7], m[8])
}

/// One cell of the board.
pub struct BoardSquare {
    pub value: u8,
    pub marks: Vec<char>,
    pub original: bool,
    pub is_valid: bool,
}

impl BoardSquare {
    /// A digit in 0..=9, and nine mark slots.
    pub open spec fn wf(&self) -> bool {
        self.value <= 9 && marks_wf(self.marks@)
    }

    /// A cell holding `value`, dealt where `original` holds, with no marks.
    pub fn new(value: u8, original: bool, is_valid: bool) -> (sq: Self)
        ensures
            sq.value == value,
            sq.original == original,
            sq.is_valid == is_valid,
            no_marks(sq.marks@),
    {
        let sq = Self { value, marks: vec![' '; 9], original, is_valid };
        assert(no_marks(sq.marks@));
        sq
    }

    /// Writes `v` and clears the marks, unless the cell was dealt.
    pub fn set_value(&mut self, v: u8)
        ensures
            final(self).original == old(self).original,
            final(self).is_valid == old(self).is_valid,
            old(self).original ==> final(self).value == old(self).value && final(self).marks@
                == old(self).marks@,
            !old(self).original ==> final(self).value == v && no_marks(final(self).marks@),
            old(self).wf() && v <= 9 ==> final(self).wf(),
    {
        if !self.original {
            self.value = v;
            self.marks = vec![' '; 9];
            assert(no_marks(self.marks@));
        }
    }

    /// Records the result of the last validity check.
    pub fn set_valid(&mut self, v: bool)
        ensures
            final(self).is_valid == v,
            final(self).value == old(self).value,
            final(self).original == old(self).original,
            final(self).marks@ == old(self).marks@,
    {
        self.is_valid = v;
    }

    /// Flips the mark of digit `d` on an empty cell that was not dealt.
    pub fn toggle_mark(&mut self, d: usize)
        requires
            1 <= d <= 9,
            old(self).marks@.len() == 9,
            old(self).value == 0,
            !old(self).original,
        ensures
            final(self).marks@ == toggled(old(self).marks@, d as int),
            old(self).wf() ==> final(self).wf(),
            final(self).value == old(self).value,
            final(self).original == old(self).original,
            final(self).is_valid == old(self).is_valid,
    {
        if self.marks[d - 1] == ' ' {
            self.marks.set(d - 1, mark_char(d));
        } else {
            self.marks.set(d - 1, ' ');
        }
    }

    /// Takes out the mark of digit `d`; `0` takes nothing out.
    pub fn remove_mark(&mut self, d: usize)
        requires
            d <= 9,
            old(self).marks@.len() == 9,
        ensures
            final(self).marks@ == without_mark(old(self).marks@, d as int),
            old(self).wf() ==> final(self).wf(),
            final(self).value == old(self).value,
            final(self).original == old(self).original,
            final(self).is_valid == old(self).is_valid,
    {
        if d == 0 {
            return ;
        }
        self.marks.set(d - 1, ' ');
    }

    /// The marks as three lines of three, blank slots as spaces.
    pub fn get_marks(&self) -> (text: String)
        requires
            self.marks@.len() == 9,
        ensures
            text@ == marks_text(self.marks@),
    {
        format_marks(&self.marks)
    }

    /// Whether any digit is marked.
    pub fn has_marks(&self) -> (r: bool)
        ensures
            r == exists|k: int| 0 <= k < self.marks@.len() && #[trigger] self.marks@[k] != ' ',
    {
        let mut k: usize = 0;
        while k < self.marks.len()
            invariant
                k <= self.marks@.len(),
                forall|i: int| 0 <= i < k ==> #[trigger] self.marks@[i] == ' ',
            decreases self.marks@.len() - k,
        {
            if self.marks[k] != ' ' {
                return true;
            }
            k += 1;
        }
        false
    }
}

/// Two cells alike in every field.
pub open spec fn same_square(a: BoardSquare, b: BoardSquare) -> bool {
    &&& a.value == b.value
    &&& a.original == b.original
    &&& a.is_valid == b.is_valid
    &&& a.marks@ == b.marks@
}

/// The 9x9 board being played.
pub struct Board {
    pub boxes: Vec<Vec<BoardSquare>>,
    pub is_solved: bool,
    pub mark_mode: bool,
}

impl Board {
    /// The cell at position `p`, row-major.
    pub open spec fn square(&self, p: int) -> BoardSquare {
        self.boxes@[p / 9]@[p % 9]
    }

    /// The values of the 81 cells, row-major.
    pub open spec fn values(&self) -> Seq<u8> {
        Seq::new(81, |p: int| self.square(p).value)
    }

    /// 9 rows of 9 cells.
    pub open spec fn shaped(&self) -> bool {
        &&& self.boxes@.len() == 9
        &&& forall|r: int| 0 <= r < 9 ==> (#[trigger] self.boxes@[r])@.len() == 9
    }

    /// 9 rows of 9 well-formed cells; a filled cell carries no marks.
    pub open spec fn wf(&self) -> bool {
        &&& self.shaped()
        &&& forall|p: int| 0 <= p < 81 ==> (#[trigger] self.square(p)).wf()
        &&& forall|p: int|
            0 <= p < 81 && (#[trigger] self.square(p)).value != 0 ==> no_marks(
                self.square(p).marks@,
            )
    }

    /// The board for a puzzle given row-major; its filled cells are the
    /// dealt ones. No cell has marks, and every cell counts as valid.
    pub fn from_bytes(bytes: [u8; 81]) -> (board: Self)
        requires
            forall|i: int| 0 <= i < 81 ==> #[trigger] bytes@[i] <= 9,
        ensures
            board.wf(),
            board.values() == bytes@,
            forall|p: int|
                0 <= p < 81 ==> (#[trigger] board.square(p)).original == (bytes@[p] != 0)
                    && board.square(p).is_valid && no_marks(board.square(p).marks@),
            !board.is_solved,
            !board.mark_mode,
    {
        let mut boxes: Vec<Vec<BoardSquare>> = Vec::new();
        let mut row: usize = 0;
        while row < 9
            invariant
                row <= 9,
                boxes@.len() == row,
                forall|i: int| 0 <= i < 81 ==> #[trigger] bytes@[i] <= 9,
                forall|r: int| 0 <= r < row ==> (#[trigger] boxes@[r])@.len() == 9,
                forall|r: int, c: int|
                    0 <= r < row && 0 <= c < 9 ==> {
                        let sq = #[trigger] boxes@[r]@[c];
                        &&& sq.value == bytes@[r * 9 + c]
                        &&& sq.original == (bytes@[r * 9 + c] != 0)
                        &&& sq.is_valid
                        &&& no_marks(sq.marks@)
                    },
            decreases 9 - row,
        {
            let mut box_row: Vec<BoardSquare> = Vec::new();
            let mut col: usize = 0;
            while col < 9
                invariant
                    row < 9,
                    col <= 9,
                    box_row@.len() == col,
                    forall|c: int|
                        0 <= c < col ==> {
                            let sq = #[trigger] box_row@[c];
                            &&& sq.value == bytes@[row * 9 + c]
                            &&& sq.original == (bytes@[row * 9 + c] != 0)
                            &&& sq.is_valid
                            &&& no_marks(sq.marks@)
                        },
                decreases 9 - col,
            {
                box_row.push(BoardSquare::new(bytes[row * 9 + col], bytes[row * 9 + col] != 0, true));
                col += 1;
            }
            boxes.push(box_row);
            row += 1;
        }
        let board = Self { boxes, is_solved: false, mark_mode: false };
        assert forall|p: int| 0 <= p < 81 implies (#[trigger] board.square(p)).wf() && board.square(
            p,
        ).value == bytes@[p] by {
            assert((p / 9) * 9 + p % 9 == p);
        }
        assert(board.values() =~= bytes@);
        board
    }

    /// Whether the value at (`row`, `col`) breaks no rule: true for an empty
    /// cell, and otherwise iff no other cell of its row, column or 3x3 box
    /// holds the same value.
    pub fn check_validity(&self, row: usize, col: usize) -> (r: bool)
        requires
            self.wf(),
            row < 9,
            col < 9,
        ensures
            r == (self.values()[row * 9 + col] == 0 || can_place(
                self.values(),
                row * 9 + col,
                self.values()[row * 9 + col],
            )),
    {
        let ghost t = row * 9 + col;
        let ghost g = self.values();
        let curr_box_value = self.boxes[row][col].value;
        if curr_box_value == 0 {
            return true;
        }
        let mut q: usize = 0;
        while q < 81
            invariant
                self.shaped(),
                row < 9,
                col < 9,
                t == row * 9 + col,
                g == self.values(),
                curr_box_value == g[t],
                curr_box_value != 0,
                q <= 81,
                forall|i: int| 0 <= i < q && #[trigger] is_peer(t, i) ==> g[i] != curr_box_value,
            decreases 81 - q,
        {
            let r = q / 9;
            let c = q % 9;
            if q != row * 9 + col && (r == row || c == col || (r / 3 == row / 3 && c / 3 == col / 3))
                && self.boxes[r][c].value == curr_box_value {
                assert(is_peer(t, q as int));
                assert(g[q as int] == curr_box_value);
                return false;
            }
            q += 1;
        }
        true
    }

    /// Takes the mark of digit `d` out of the cell at (`r`, `c`).
    fn remove_mark_at(&mut self, r: usize, c: usize, d: usize)
        requires
            old(self).shaped(),
            r < 9,
            c < 9,
            d <= 9,
            old(self).square(r * 9 + c).marks@.len() == 9,
        ensures
            final(self).shaped(),
            final(self).is_solved == old(self).is_solved,
            final(self).mark_mode == old(self).mark_mode,
            final(self).square(r * 9 + c).marks@ == without_mark(
                old(self).square(r * 9 + c).marks@,
                d as int,
            ),
            final(self).square(r * 9 + c).value == old(self).square(r * 9 + c).value,
            final(self).square(r * 9 + c).original == old(self).square(r * 9 + c).original,
            final(self).square(r * 9 + c).is_valid == old(self).square(r * 9 + c).is_valid,
            forall|p: int|
                0 <= p < 81 && p != r * 9 + c ==> #[trigger] final(self).square(p) == old(
                    self,
                ).square(p),
    {
        assert((r * 9 + c) / 9 == r && (r * 9 + c) % 9 == c);
        self.boxes[r][c].remove_mark(d);
        assert forall|i: int| 0 <= i < 9 implies (#[trigger] self.boxes@[i])@.len() == 9 by {}
    }

    /// Writes `v` and clears the marks of the cell at (`r`, `c`), unless it
    /// was dealt.
    fn set_value_at(&mut self, r: usize, c: usize, v: u8)
        requires
            old(self).shaped(),
            r < 9,
            c < 9,
        ensures
            final(self).shaped(),
            final(self).is_solved == old(self).is_solved,
            final(self).mark_mode == old(self).mark_mode,
            final(self).square(r * 9 + c).original == old(self).square(r * 9 + c).original,
            final(self).square(r * 9 + c).is_valid == old(self).square(r * 9 + c).is_valid,
            !old(self).square(r * 9 + c).original ==> final(self).square(r * 9 + c).value == v
                && no_marks(final(self).square(r * 9 + c).marks@),
            old(self).square(r * 9 + c).original ==> final(self).square(r * 9 + c) == old(
                self,
            ).square(r * 9 + c),
            forall|p: int|
                0 <= p < 81 && p != r * 9 + c ==> #[trigger] final(self).square(p) == old(
                    self,
                ).square(p),
    {
        assert((r * 9 + c) / 9 == r && (r * 9 + c) % 9 == c);
        if self.boxes[r][c].original {
            return ;
        }
        self.boxes[r][c].set_value(v);
        assert forall|i: int| 0 <= i < 9 implies (#[trigger] self.boxes@[i])@.len() == 9 by {}
    }

    /// Writes `v` at (`row`, `col`) and clears that cell's marks; a nonzero
    /// `v` is also taken out of the marks of every other cell of the same
    /// row, column and 3x3 box. Where the cell was dealt nothing changes.
    pub fn set_box(&mut self, row: usize, col: usize, v: u8)
        requires
            old(self).wf(),
            row < 9,
            col < 9,
            v <= 9,
        ensures
            final(self).wf(),
            final(self).is_solved == old(self).is_solved,
            final(self).mark_mode == old(self).mark_mode,
            !old(self).square(row * 9 + col).original && v != 0 ==> forall|p: int|
                #[trigger] is_peer(row * 9 + col, p) ==> !marked(final(self).square(p).marks@, v as int),
            old(self).square(row * 9 + col).original ==> forall|p: int|
                0 <= p < 81 ==> same_square(#[trigger] final(self).square(p), old(self).square(p)),
            !old(self).square(row * 9 + col).original ==> {
                &&& final(self).square(row * 9 + col).value == v
                &&& no_marks(final(self).square(row * 9 + col).marks@)
                &&& final(self).square(row * 9 + col).original == old(self).square(
                    row * 9 + col,
                ).original
                &&& final(self).square(row * 9 + col).is_valid == old(self).square(
                    row * 9 + col,
                ).is_valid
                &&& forall|p: int|
                    0 <= p < 81 && p != row * 9 + col ==> {
                        let sq = #[trigger] final(self).square(p);
                        let before = old(self).square(p);
                        &&& sq.value == before.value
                        &&& sq.original == before.original
                        &&& sq.is_valid == before.is_valid
                        &&& sq.marks@ == if is_peer(row * 9 + col, p) {
                            without_mark(before.marks@, v as int)
                        } else {
                            before.marks@
                        }
                    }
            },
    {
        let ghost t = row * 9 + col;
        assert(t / 9 == row && t % 9 == col);
        if self.boxes[row][col].original {
            return ;
        }
        self.set_value_at(row, col, v);
        let mut q: usize = 0;
        while q < 81
            invariant
                t == row * 9 + col,
                t / 9 == row && t % 9 == col,
                row < 9,
                col < 9,
                v <= 9,
                q <= 81,
                old(self).wf(),
                !old(self).square(t).original,
                self.shaped(),
                self.is_solved == old(self).is_solved,
                self.mark_mode == old(self).mark_mode,
                self.square(t).value == v,
                no_marks(self.square(t).marks@),
                self.square(t).original == old(self).square(t).original,
                self.square(t).is_valid == old(self).square(t).is_valid,
                forall|p: int|
                    0 <= p < 81 && p != t ==> {
                        let sq = #[trigger] self.square(p);
                        let before = old(self).square(p);
                        if p < q && is_peer(t, p) {
                            &&& sq.value == before.value
                            &&& sq.original == before.original
                            &&& sq.is_valid == before.is_valid
                            &&& sq.marks@ == without_mark(before.marks@, v as int)
                        } else {
                            sq == before
                        }
                    },
            decreases 81 - q,
        {
            let r = q / 9;
            let c = q % 9;
            if q != row * 9 + col && (r == row || c == col || (r / 3 == row / 3 && c / 3 == col
                / 3)) {
                assert(is_peer(t, q as int));
                assert(old(self).square(q as int).wf());
                assert(r * 9 + c == q);
                self.remove_mark_at(r, c, v as usize);
            } else {
                assert(!is_peer(t, q as int));
            }
            q += 1;
        }
        assert forall|p: int| 0 <= p < 81 implies (#[trigger] self.square(p)).wf() by {
            if p != t {
                assert(old(self).square(p).wf());
            }
        }
        assert forall|p: int|
            0 <= p < 81 && (#[trigger] self.square(p)).value != 0 implies no_marks(
            self.square(p).marks@,
        ) by {
            if p != t {
                assert(old(self).square(p).value != 0);
            }
        }
    }
}

} // verus!
