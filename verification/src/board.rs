//! The 9x9 grid and the placement-legality check.
//!
//! A grid is modelled as a sequence of 81 bytes in row-major order; `0`
//! stands for an empty cell and `1..=9` for a filled digit.  All contracts
//! are stated over that sequence view.

use vstd::prelude::*;

verus! {

/// The value stored at cell `(r, c)` of a row-major grid; `0` means empty.
pub open spec fn cell(s: Seq<u8>, r: int, c: int) -> u8 {
    s[r * 9 + c]
}

/// A well-formed grid: exactly 81 cells, each either empty (`0`) or a digit `1..=9`.
pub open spec fn wf_seq(s: Seq<u8>) -> bool {
    &&& s.len() == 81
    &&& forall|i: int| 0 <= i < 81 ==> #[trigger] s[i] <= 9
}

/// Whether cells `(r1, c1)` and `(r2, c2)` share a sudoku unit:
/// the same row, the same column, or the same 3x3 box.
pub open spec fn same_unit(r1: int, c1: int, r2: int, c2: int) -> bool {
    ||| r1 == r2
    ||| c1 == c2
    ||| (r1 / 3 == r2 / 3 && c1 / 3 == c2 / 3)
}

/// The sudoku rules hold of the filled cells: no two distinct cells of one
/// unit hold the same digit.  Empty cells (`0`) never conflict.
pub open spec fn consistent(s: Seq<u8>) -> bool {
    forall|r1: int, c1: int, r2: int, c2: int|
        0 <= r1 < 9 && 0 <= c1 < 9 && 0 <= r2 < 9 && 0 <= c2 < 9
            && !(r1 == r2 && c1 == c2) && same_unit(r1, c1, r2, c2)
            && #[trigger] cell(s, r1, c1) != 0
            ==> cell(s, r1, c1) != #[trigger] cell(s, r2, c2)
}

/// Digit `d` appears as a filled value somewhere in row `r`.
pub open spec fn digit_in_row(s: Seq<u8>, r: int, d: u8) -> bool {
    exists|c: int| 0 <= c < 9 && #[trigger] cell(s, r, c) == d
}

/// Digit `d` appears as a filled value somewhere in column `c`.
pub open spec fn digit_in_col(s: Seq<u8>, c: int, d: u8) -> bool {
    exists|r: int| 0 <= r < 9 && #[trigger] cell(s, r, c) == d
}

/// Digit `d` appears as a filled value somewhere in the 3x3 box containing `(r, c)`.
pub open spec fn digit_in_box(s: Seq<u8>, r: int, c: int, d: u8) -> bool {
    exists|rr: int, cc: int|
        0 <= rr < 9 && 0 <= cc < 9 && rr / 3 == r / 3 && cc / 3 == c / 3
            && #[trigger] cell(s, rr, cc) == d
}

/// Placing digit `d` at cell `(r, c)` breaks no sudoku rule against the
/// cells currently filled: `d` occurs in neither the row, nor the column,
/// nor the box of `(r, c)`.
pub open spec fn valid_placement(s: Seq<u8>, r: int, c: int, d: u8) -> bool {
    &&& !digit_in_row(s, r, d)
    &&& !digit_in_col(s, c, d)
    &&& !digit_in_box(s, r, c, d)
}

/// Every cell of the grid is filled with a digit `1..=9`.
pub open spec fn full(s: Seq<u8>) -> bool {
    forall|i: int| 0 <= i < 81 ==> 1 <= #[trigger] s[i] <= 9
}

/// Nine pairwise distinct values drawn from `1..=9` cover all of `1..=9`.
proof fn lemma_nine_distinct_digits(vals: Seq<int>)
    requires
        vals.len() == 9,
        forall|i: int| 0 <= i < 9 ==> 1 <= #[trigger] vals[i] <= 9,
        forall|i: int, j: int| 0 <= i < 9 && 0 <= j < 9 && i != j ==> #[trigger] vals[i] != #[trigger] vals[j],
    ensures
        forall|d: int| 1 <= d <= 9 ==> #[trigger] vals.contains(d),
{
    assert(vals.no_duplicates());
    vals.unique_seq_to_set();
    let vs = vals.to_set();
    let digits = vstd::set_lib::set_int_range(1, 10);
    vstd::set_lib::lemma_int_range(1, 10);
    assert forall|x: int| vs.contains(x) implies digits.contains(x) by {
        assert(vals.contains(x));
        let i = choose|i: int| 0 <= i < vals.len() && vals[i] == x;
        assert(1 <= vals[i] <= 9);
    }
    vstd::set_lib::lemma_subset_equality(vs, digits);
    assert forall|d: int| 1 <= d <= 9 implies vals.contains(d) by {
        assert(digits.contains(d));
        assert(vs.contains(d));
    }
}

/// In a fully filled, rule-consistent grid, every row, every column and
/// every 3x3 box contains each digit `1..=9`; since `consistent` already
/// forbids a second occurrence inside a unit, each unit holds each digit
/// exactly once.
pub proof fn lemma_full_consistent_units_complete(s: Seq<u8>)
    requires
        wf_seq(s),
        full(s),
        consistent(s),
    ensures
        forall|r: int, d: u8| 0 <= r < 9 && 1 <= d <= 9 ==> #[trigger] digit_in_row(s, r, d),
        forall|c: int, d: u8| 0 <= c < 9 && 1 <= d <= 9 ==> #[trigger] digit_in_col(s, c, d),
        forall|r: int, c: int, d: u8|
            0 <= r < 9 && 0 <= c < 9 && 1 <= d <= 9 ==> #[trigger] digit_in_box(s, r, c, d),
{
    assert forall|r: int, d: u8| 0 <= r < 9 && 1 <= d <= 9 implies #[trigger] digit_in_row(
        s,
        r,
        d,
    ) by {
        let vals = Seq::new(9, |c: int| cell(s, r, c) as int);
        assert forall|i: int| 0 <= i < 9 implies 1 <= #[trigger] vals[i] <= 9 by {
            assert(1 <= s[r * 9 + i] <= 9);
        }
        assert forall|i: int, j: int| 0 <= i < 9 && 0 <= j < 9 && i != j implies #[trigger] vals[i]
            != #[trigger] vals[j] by {
            assert(cell(s, r, i) != 0);
            assert(cell(s, r, i) != cell(s, r, j));
        }
        lemma_nine_distinct_digits(vals);
        assert(vals.contains(d as int));
        let c = choose|c: int| 0 <= c < vals.len() && vals[c] == d as int;
        assert(cell(s, r, c) == d);
    }
    assert forall|c: int, d: u8| 0 <= c < 9 && 1 <= d <= 9 implies #[trigger] digit_in_col(
        s,
        c,
        d,
    ) by {
        let vals = Seq::new(9, |r: int| cell(s, r, c) as int);
        assert forall|i: int| 0 <= i < 9 implies 1 <= #[trigger] vals[i] <= 9 by {
            assert(1 <= s[i * 9 + c] <= 9);
        }
        assert forall|i: int, j: int| 0 <= i < 9 && 0 <= j < 9 && i != j implies #[trigger] vals[i]
            != #[trigger] vals[j] by {
            assert(cell(s, i, c) != 0);
            assert(cell(s, i, c) != cell(s, j, c));
        }
        lemma_nine_distinct_digits(vals);
        assert(vals.contains(d as int));
        let r = choose|r: int| 0 <= r < vals.len() && vals[r] == d as int;
        assert(cell(s, r, c) == d);
    }
    assert forall|r: int, c: int, d: u8|
        0 <= r < 9 && 0 <= c < 9 && 1 <= d <= 9 implies #[trigger] digit_in_box(s, r, c, d) by {
        let vals = Seq::new(9, |m: int| cell(s, 3 * (r / 3) + m / 3, 3 * (c / 3) + m % 3) as int);
        assert forall|i: int| 0 <= i < 9 implies 1 <= #[trigger] vals[i] <= 9 by {
            let rr = 3 * (r / 3) + i / 3;
            let cc = 3 * (c / 3) + i % 3;
            assert(0 <= rr < 9 && 0 <= cc < 9);
            assert(1 <= s[rr * 9 + cc] <= 9);
        }
        assert forall|i: int, j: int| 0 <= i < 9 && 0 <= j < 9 && i != j implies #[trigger] vals[i]
            != #[trigger] vals[j] by {
            let ri = 3 * (r / 3) + i / 3;
            let ci = 3 * (c / 3) + i % 3;
            let rj = 3 * (r / 3) + j / 3;
            let cj = 3 * (c / 3) + j % 3;
            assert(ri / 3 == r / 3 && rj / 3 == r / 3);
            assert(ci / 3 == c / 3 && cj / 3 == c / 3);
            assert(!(ri == rj && ci == cj));
            assert(same_unit(ri, ci, rj, cj));
            assert(cell(s, ri, ci) != 0);
            assert(cell(s, ri, ci) != cell(s, rj, cj));
        }
        lemma_nine_distinct_digits(vals);
        assert(vals.contains(d as int));
        let m = choose|m: int| 0 <= m < vals.len() && vals[m] == d as int;
        let rr = 3 * (r / 3) + m / 3;
        let cc = 3 * (c / 3) + m % 3;
        assert(rr / 3 == r / 3 && cc / 3 == c / 3);
        assert(cell(s, rr, cc) == d);
    }
}

/// A 9x9 sudoku grid of optional digits.
#[derive(Clone, Debug, PartialEq, Eq)]
pub struct Board {
    cells: Vec<u8>,
}

impl View for Board {
    type V = Seq<u8>;

    closed spec fn view(&self) -> Seq<u8> {
        self.cells@
    }
}

impl Board {
    /// The board holds exactly 81 cells, each empty or a digit `1..=9`.
    pub open spec fn wf(&self) -> bool {
        wf_seq(self@)
    }

    /// Creates a board with every cell empty.
    pub fn new() -> (b: Board)
        ensures
            b.wf(),
            forall|i: int| 0 <= i < 81 ==> b@[i] == 0,
    {
        let mut cells: Vec<u8> = Vec::new();
        for k in 0..81usize
            invariant
                cells.len() == k,
                forall|i: int| 0 <= i < k ==> cells@[i] == 0,
        {
            cells.push(0);
        }
        Board { cells }
    }

    /// Reads cell `(row, col)`: `None` when it is empty, else the digit.
    pub fn get_cell(&self, row: usize, col: usize) -> (r: Option<u8>)
        requires
            self.wf(),
            row < 9,
            col < 9,
        ensures
            (r == if cell(self@, row as int, col as int) == 0 {
                Option::<u8>::None
            } else {
                Option::Some(cell(self@, row as int, col as int))
            }),
    {
        let v: u8 = self.cells[row * 9 + col];
        if v == 0 {
            None
        } else {
            Some(v)
        }
    }

    /// Writes digit `digit` into cell `(row, col)`.
    pub fn set_cell(&mut self, row: usize, col: usize, digit: u8)
        requires
            old(self).wf(),
            row < 9,
            col < 9,
            1 <= digit <= 9,
        ensures
            final(self).wf(),
            final(self)@ == old(self)@.update(row as int * 9 + col as int, digit),
    {
        let i: usize = row * 9 + col;
        self.cells[i] = digit;
    }

    /// Empties cell `(row, col)`.
    pub fn clear_cell(&mut self, row: usize, col: usize)
        requires
            old(self).wf(),
            row < 9,
            col < 9,
        ensures
            final(self).wf(),
            final(self)@ == old(self)@.update(row as int * 9 + col as int, 0u8),
    {
        let i: usize = row * 9 + col;
        self.cells[i] = 0;
    }

    /// Resets every cell to empty.
    pub fn clear(&mut self)
        ensures
            final(self).wf(),
            forall|i: int| 0 <= i < 81 ==> final(self)@[i] == 0,
    {
        *self = Board::new();
    }
}

/// Cell `(r1, c1)` is in no conflict: if it is filled, no other cell of its
/// row, column or box holds the same digit.
pub open spec fn cell_ok(s: Seq<u8>, r1: int, c1: int) -> bool {
    forall|r2: int, c2: int|
        0 <= r2 < 9 && 0 <= c2 < 9 && !(r1 == r2 && c1 == c2) && same_unit(r1, c1, r2, c2)
            && cell(s, r1, c1) != 0
            ==> cell(s, r1, c1) != #[trigger] cell(s, r2, c2)
}

/// Scans the units of the filled cell `(row, col)` for another cell holding
/// the same digit.
fn cell_has_no_conflict(board: &Board, row: usize, col: usize) -> (r: bool)
    requires
        board.wf(),
        row < 9,
        col < 9,
        cell(board@, row as int, col as int) != 0,
    ensures
        r == cell_ok(board@, row as int, col as int),
{
    let d: u8 = board.cells[row * 9 + col];
    assert(d == cell(board@, row as int, col as int));

    // Scan the row.
    for c in 0..9usize
        invariant
            board.wf(),
            row < 9,
            col < 9,
            d == cell(board@, row as int, col as int),
            d != 0,
            forall|c2: int|
                0 <= c2 < c && c2 != col as int ==> #[trigger] cell(board@, row as int, c2) != d,
    {
        if c != col && board.cells[row * 9 + c] == d {
            proof {
                assert(cell(board@, row as int, c as int) == d);
                assert(!cell_ok(board@, row as int, col as int)) by {
                    if cell_ok(board@, row as int, col as int) {
                        assert(cell(board@, row as int, col as int) != cell(
                            board@,
                            row as int,
                            c as int,
                        ));
                    }
                }
            }
            return false;
        }
        assert(c != col ==> cell(board@, row as int, c as int) != d);
    }

    // Scan the column.
    for r2 in 0..9usize
        invariant
            board.wf(),
            row < 9,
            col < 9,
            d == cell(board@, row as int, col as int),
            d != 0,
            forall|r3: int|
                0 <= r3 < r2 && r3 != row as int ==> #[trigger] cell(board@, r3, col as int) != d,
    {
        if r2 != row && board.cells[r2 * 9 + col] == d {
            proof {
                assert(cell(board@, r2 as int, col as int) == d);
                assert(!cell_ok(board@, row as int, col as int)) by {
                    if cell_ok(board@, row as int, col as int) {
                        assert(cell(board@, row as int, col as int) != cell(
                            board@,
                            r2 as int,
                            col as int,
                        ));
                    }
                }
            }
            return false;
        }
        assert(r2 != row ==> cell(board@, r2 as int, col as int) != d);
    }

    // Scan the 3x3 box.
    let r0: usize = (row / 3) * 3;
    let c0: usize = (col / 3) * 3;
    for j in 0..3usize
        invariant
            board.wf(),
            row < 9,
            col < 9,
            d == cell(board@, row as int, col as int),
            d != 0,
            r0 == (row / 3) * 3,
            c0 == (col / 3) * 3,
            forall|rr: int, cc: int|
                0 <= rr < 9 && 0 <= cc < 9 && rr / 3 == row as int / 3
                    && cc / 3 == col as int / 3 && rr % 3 < j
                    && !(rr == row as int && cc == col as int)
                    ==> cell(board@, rr, cc) != d,
    {
        for i in 0..3usize
            invariant
                board.wf(),
                row < 9,
                col < 9,
                j < 3,
                d == cell(board@, row as int, col as int),
                d != 0,
                r0 == (row / 3) * 3,
                c0 == (col / 3) * 3,
                forall|rr: int, cc: int|
                    0 <= rr < 9 && 0 <= cc < 9 && rr / 3 == row as int / 3
                        && cc / 3 == col as int / 3
                        && (rr % 3 < j || (rr % 3 == j && cc % 3 < i))
                        && !(rr == row as int && cc == col as int)
                        ==> cell(board@, rr, cc) != d,
        {
            if !(r0 + j == row && c0 + i == col) && board.cells[(r0 + j) * 9 + (c0 + i)] == d {
                proof {
                    assert(cell(board@, (r0 + j) as int, (c0 + i) as int) == d);
                    assert((r0 + j) as int / 3 == row as int / 3);
                    assert((c0 + i) as int / 3 == col as int / 3);
                    assert(!cell_ok(board@, row as int, col as int)) by {
                        if cell_ok(board@, row as int, col as int) {
                            assert(cell(board@, row as int, col as int) != cell(
                                board@,
                                (r0 + j) as int,
                                (c0 + i) as int,
                            ));
                        }
                    }
                }
                return false;
            }
            assert forall|rr: int, cc: int|
                0 <= rr < 9 && 0 <= cc < 9 && rr / 3 == row as int / 3
                    && cc / 3 == col as int / 3
                    && (rr % 3 < j || (rr % 3 == j && cc % 3 < i + 1))
                    && !(rr == row as int && cc == col as int)
                    implies cell(board@, rr, cc) != d by {
                if rr % 3 == j && cc % 3 == i {
                    assert(rr == (r0 + j) as int);
                    assert(cc == (c0 + i) as int);
                }
            }
        }
    }

    proof {
        assert forall|r2: int, c2: int|
            0 <= r2 < 9 && 0 <= c2 < 9 && !(row as int == r2 && col as int == c2)
                && same_unit(row as int, col as int, r2, c2)
                && cell(board@, row as int, col as int) != 0
                implies cell(board@, row as int, col as int) != #[trigger] cell(
                board@,
                r2,
                c2,
            ) by {
            if r2 == row as int {
                assert(cell(board@, r2, c2) != d);
            } else if c2 == col as int {
                assert(cell(board@, r2, c2) != d);
            } else {
                assert(r2 / 3 == row as int / 3 && c2 / 3 == col as int / 3);
                assert(r2 % 3 < 3);
                assert(cell(board@, r2, c2) != d);
            }
        }
    }
    true
}

/// Does the whole board obey the sudoku rules?  Returns `true` exactly when
/// no filled cell is duplicated inside its row, its column, or its 3x3 box.
/// Callers use it to validate a caller-supplied starting grid before asking
/// the solver to complete it.
pub fn is_consistent(board: &Board) -> (r: bool)
    requires
        board.wf(),
    ensures
        r == consistent(board@),
{
    for row in 0..9usize
        invariant
            board.wf(),
            forall|r1: int, c1: int|
                0 <= r1 < row && 0 <= c1 < 9 ==> #[trigger] cell_ok(board@, r1, c1),
    {
        for col in 0..9usize
            invariant
                board.wf(),
                row < 9,
                forall|r1: int, c1: int|
                    0 <= r1 < row && 0 <= c1 < 9 ==> #[trigger] cell_ok(board@, r1, c1),
                forall|c1: int| 0 <= c1 < col ==> #[trigger] cell_ok(board@, row as int, c1),
        {
            if board.cells[row * 9 + col] != 0 {
                if !cell_has_no_conflict(board, row, col) {
                    proof {
                        assert(!consistent(board@)) by {
                            if consistent(board@) {
                                assert forall|r2: int, c2: int|
                                    0 <= r2 < 9 && 0 <= c2 < 9
                                        && !(row as int == r2 && col as int == c2)
                                        && same_unit(row as int, col as int, r2, c2)
                                        && cell(board@, row as int, col as int) != 0
                                        implies cell(board@, row as int, col as int)
                                        != #[trigger] cell(board@, r2, c2) by {
                                    assert(cell(board@, row as int, col as int) != 0);
                                }
                                assert(cell_ok(board@, row as int, col as int));
                            }
                        }
                    }
                    return false;
                }
            } else {
                assert(cell(board@, row as int, col as int) == 0);
                assert(cell_ok(board@, row as int, col as int));
            }
        }
    }
    proof {
        assert forall|r1: int, c1: int, r2: int, c2: int|
            0 <= r1 < 9 && 0 <= c1 < 9 && 0 <= r2 < 9 && 0 <= c2 < 9
                && !(r1 == r2 && c1 == c2) && same_unit(r1, c1, r2, c2)
                && #[trigger] cell(board@, r1, c1) != 0
                implies cell(board@, r1, c1) != #[trigger] cell(board@, r2, c2) by {
            assert(cell_ok(board@, r1, c1));
        }
    }
    true
}

/// Validation is idempotent and pure: [`is_valid_placement`] takes the
/// board by shared reference, so a call cannot alter it, and its contract
/// makes the result a function of the board view and the queried cell and
/// digit alone.  Hence any two calls with the same arguments on boards with
/// equal views return the same answer.
pub proof fn lemma_validation_repeatable(s: Seq<u8>, r: int, c: int, d: u8, r1: bool, r2: bool)
    requires
        r1 == valid_placement(s, r, c, d),
        r2 == valid_placement(s, r, c, d),
    ensures
        r1 == r2,
{
}

/// Would placing `digit` at `(row, col)` violate the sudoku rules given the
/// cells currently filled?  Returns `true` exactly when `digit` appears as a
/// filled value nowhere in the row, the column, or the 3x3 box of the target
/// cell.  The target cell's own current value is not examined: whether the
/// cell is free is the caller's concern.
pub fn is_valid_placement(board: &Board, row: usize, col: usize, digit: u8) -> (r: bool)
    requires
        board.wf(),
        row < 9,
        col < 9,
        1 <= digit <= 9,
    ensures
        r == valid_placement(board@, row as int, col as int, digit),
{
    // Scan the row.
    for c in 0..9usize
        invariant
            board.wf(),
            row < 9,
            col < 9,
            forall|c2: int| 0 <= c2 < c ==> cell(board@, row as int, c2) != digit,
    {
        if board.cells[row * 9 + c] == digit {
            assert(cell(board@, row as int, c as int) == digit);
            assert(digit_in_row(board@, row as int, digit));
            return false;
        }
        assert(cell(board@, row as int, c as int) != digit);
    }

    // Scan the column.
    for r in 0..9usize
        invariant
            board.wf(),
            row < 9,
            col < 9,
            forall|r2: int| 0 <= r2 < r ==> cell(board@, r2, col as int) != digit,
    {
        if board.cells[r * 9 + col] == digit {
            assert(cell(board@, r as int, col as int) == digit);
            assert(digit_in_col(board@, col as int, digit));
            return false;
        }
        assert(cell(board@, r as int, col as int) != digit);
    }

    // Scan the 3x3 box.
    let r0: usize = (row / 3) * 3;
    let c0: usize = (col / 3) * 3;
    for j in 0..3usize
        invariant
            board.wf(),
            row < 9,
            col < 9,
            r0 == (row / 3) * 3,
            c0 == (col / 3) * 3,
            forall|rr: int, cc: int|
                0 <= rr < 9 && 0 <= cc < 9 && rr / 3 == row as int / 3
                    && cc / 3 == col as int / 3 && rr % 3 < j
                    ==> cell(board@, rr, cc) != digit,
    {
        for i in 0..3usize
            invariant
                board.wf(),
                row < 9,
                col < 9,
                j < 3,
                r0 == (row / 3) * 3,
                c0 == (col / 3) * 3,
                forall|rr: int, cc: int|
                    0 <= rr < 9 && 0 <= cc < 9 && rr / 3 == row as int / 3
                        && cc / 3 == col as int / 3
                        && (rr % 3 < j || (rr % 3 == j && cc % 3 < i))
                        ==> cell(board@, rr, cc) != digit,
        {
            if board.cells[(r0 + j) * 9 + (c0 + i)] == digit {
                assert(cell(board@, (r0 + j) as int, (c0 + i) as int) == digit);
                assert((r0 + j) as int / 3 == row as int / 3);
                assert((c0 + i) as int / 3 == col as int / 3);
                assert(digit_in_box(board@, row as int, col as int, digit));
                return false;
            }
            assert(cell(board@, (r0 + j) as int, (c0 + i) as int) != digit);
            assert forall|rr: int, cc: int|
                0 <= rr < 9 && 0 <= cc < 9 && rr / 3 == row as int / 3
                    && cc / 3 == col as int / 3
                    && (rr % 3 < j || (rr % 3 == j && cc % 3 < i + 1))
                    implies cell(board@, rr, cc) != digit by {
                if rr % 3 == j && cc % 3 == i {
                    assert(rr == (r0 + j) as int);
                    assert(cc == (c0 + i) as int);
                }
            }
        }
    }
    assert(!digit_in_box(board@, row as int, col as int, digit)) by {
        if digit_in_box(board@, row as int, col as int, digit) {
            let (rr, cc) = choose|rr: int, cc: int|
                0 <= rr < 9 && 0 <= cc < 9 && rr / 3 == row as int / 3
                    && cc / 3 == col as int / 3 && #[trigger] cell(board@, rr, cc) == digit;
            assert(rr % 3 < 3);
            assert(false);
        }
    }
    true
}

} // verus!
