//! The backtracking solver and its correctness arguments.
//!
//! The search walks the 81 cells in row-major order; at each empty cell it
//! tries the digits `1..=9` in ascending order, committing a digit only when
//! [`crate::board::is_valid_placement`] allows it and undoing the commit when
//! the rest of the grid cannot be completed.

use vstd::prelude::*;
use crate::board::Board;
use crate::board::cell;
use crate::board::consistent;
use crate::board::digit_in_box;
use crate::board::digit_in_col;
use crate::board::digit_in_row;
use crate::board::full;
use crate::board::is_valid_placement;
use crate::board::same_unit;
use crate::board::valid_placement;
use crate::board::wf_seq;

verus! {

/// Every cell whose row-major index lies below `k` is filled.
pub open spec fn prefix_filled(s: Seq<u8>, k: int) -> bool {
    forall|i: int| 0 <= i < k ==> #[trigger] s[i] != 0
}

/// Grid `t` agrees with grid `s` on every cell that is filled in `s`.
pub open spec fn extends(s: Seq<u8>, t: Seq<u8>) -> bool {
    forall|i: int| 0 <= i < 81 && #[trigger] s[i] != 0 ==> t[i] == s[i]
}

/// Grid `t` is a solution of the starting grid `s`: a completely filled,
/// rule-consistent grid that keeps every originally filled cell of `s`.
pub open spec fn is_solution_of(t: Seq<u8>, s: Seq<u8>) -> bool {
    &&& t.len() == 81
    &&& full(t)
    &&& consistent(t)
    &&& extends(s, t)
}

/// Row-major lexicographic order on 81-cell grids: `a` equals `b`, or `a`
/// holds the smaller value at the first index where the two differ.
pub open spec fn lex_le(a: Seq<u8>, b: Seq<u8>) -> bool {
    ||| a == b
    ||| exists|j: int|
        0 <= j < 81 && (forall|i: int| 0 <= i < j ==> a[i] == b[i]) && #[trigger] a[j] < b[j]
}

/// Placing a digit that `valid_placement` allows into an empty cell of a
/// consistent grid leaves the grid consistent.
proof fn lemma_place_preserves_consistent(s: Seq<u8>, r: int, c: int, d: u8)
    requires
        wf_seq(s),
        consistent(s),
        0 <= r < 9,
        0 <= c < 9,
        1 <= d <= 9,
        cell(s, r, c) == 0,
        valid_placement(s, r, c, d),
    ensures
        consistent(s.update(r * 9 + c, d)),
{
    let s1 = s.update(r * 9 + c, d);
    assert forall|r1: int, c1: int, r2: int, c2: int|
        0 <= r1 < 9 && 0 <= c1 < 9 && 0 <= r2 < 9 && 0 <= c2 < 9
            && !(r1 == r2 && c1 == c2) && same_unit(r1, c1, r2, c2)
            && #[trigger] cell(s1, r1, c1) != 0
            implies cell(s1, r1, c1) != #[trigger] cell(s1, r2, c2) by {
        if r1 == r && c1 == c {
            // The new digit against an old cell.
            assert(cell(s1, r1, c1) == d);
            assert(cell(s1, r2, c2) == cell(s, r2, c2));
            if cell(s, r2, c2) == d {
                if r2 == r {
                    assert(digit_in_row(s, r, d));
                } else if c2 == c {
                    assert(digit_in_col(s, c, d));
                } else {
                    assert(digit_in_box(s, r, c, d));
                }
                assert(false);
            }
        } else if r2 == r && c2 == c {
            // An old cell against the new digit.
            assert(cell(s1, r1, c1) == cell(s, r1, c1));
            assert(cell(s1, r2, c2) == d);
            if cell(s, r1, c1) == d {
                if r1 == r {
                    assert(digit_in_row(s, r, d));
                } else if c1 == c {
                    assert(digit_in_col(s, c, d));
                } else {
                    assert(digit_in_box(s, r, c, d));
                }
                assert(false);
            }
        } else {
            // Two old cells: the starting grid already keeps them apart.
            assert(cell(s1, r1, c1) == cell(s, r1, c1));
            assert(cell(s1, r2, c2) == cell(s, r2, c2));
        }
    }
}

/// Any solution of a grid whose cell `(r, c)` is empty places at `(r, c)` a
/// digit that `valid_placement` allows on that grid.
proof fn lemma_solution_placement_valid(s: Seq<u8>, t: Seq<u8>, r: int, c: int)
    requires
        wf_seq(s),
        is_solution_of(t, s),
        0 <= r < 9,
        0 <= c < 9,
        cell(s, r, c) == 0,
    ensures
        1 <= cell(t, r, c) <= 9,
        valid_placement(s, r, c, cell(t, r, c)),
{
    let d = cell(t, r, c);
    assert(1 <= d <= 9);
    assert(!digit_in_row(s, r, d)) by {
        if digit_in_row(s, r, d) {
            let c2 = choose|c2: int| 0 <= c2 < 9 && #[trigger] cell(s, r, c2) == d;
            assert(c2 != c);
            assert(cell(t, r, c2) == d);
            assert(cell(t, r, c) != cell(t, r, c2));
            assert(false);
        }
    }
    assert(!digit_in_col(s, c, d)) by {
        if digit_in_col(s, c, d) {
            let r2 = choose|r2: int| 0 <= r2 < 9 && #[trigger] cell(s, r2, c) == d;
            assert(r2 != r);
            assert(cell(t, r2, c) == d);
            assert(cell(t, r, c) != cell(t, r2, c));
            assert(false);
        }
    }
    assert(!digit_in_box(s, r, c, d)) by {
        if digit_in_box(s, r, c, d) {
            let (rr, cc) = choose|rr: int, cc: int|
                0 <= rr < 9 && 0 <= cc < 9 && rr / 3 == r / 3 && cc / 3 == c / 3
                    && #[trigger] cell(s, rr, cc) == d;
            assert(!(rr == r && cc == c));
            assert(cell(t, rr, cc) == d);
            assert(same_unit(r, c, rr, cc));
            assert(cell(t, r, c) != cell(t, rr, cc));
            assert(false);
        }
    }
}

/// A solution that places digit `d` at the empty cell `(r, c)` of `s` is
/// also a solution of `s` with `d` committed there, and conversely.
proof fn lemma_solution_place(s: Seq<u8>, t: Seq<u8>, r: int, c: int, d: u8)
    requires
        wf_seq(s),
        0 <= r < 9,
        0 <= c < 9,
        1 <= d <= 9,
        cell(s, r, c) == 0,
    ensures
        is_solution_of(t, s) && cell(t, r, c) == d <==> is_solution_of(t, s.update(r * 9 + c, d)),
{
    let k = r * 9 + c;
    let s1 = s.update(k, d);
    if is_solution_of(t, s) && cell(t, r, c) == d {
        assert forall|i: int| 0 <= i < 81 && #[trigger] s1[i] != 0 implies t[i] == s1[i] by {
            if i == k {
                assert(t[i] == d);
            }
        }
        assert(is_solution_of(t, s1));
    }
    if is_solution_of(t, s1) {
        assert forall|i: int| 0 <= i < 81 && #[trigger] s[i] != 0 implies t[i] == s[i] by {
            assert(i != k);
            assert(s1[i] == s[i]);
        }
        assert(cell(t, r, c) == s1[k]);
        assert(is_solution_of(t, s));
    }
}

/// A fully filled grid has itself as its only solution.
proof fn lemma_full_solution_unique(s: Seq<u8>, t: Seq<u8>)
    requires
        s.len() == 81,
        full(s),
        is_solution_of(t, s),
    ensures
        t == s,
{
    assert forall|i: int| 0 <= i < 81 implies t[i] == s[i] by {
        assert(s[i] != 0);
    }
    assert(t =~= s);
}

/// Row-major lexicographic order on 81-cell grids is antisymmetric.
proof fn lemma_lex_le_antisymmetric(a: Seq<u8>, b: Seq<u8>)
    requires
        lex_le(a, b),
        lex_le(b, a),
    ensures
        a == b,
{
    if a != b {
        let j1 = choose|j: int|
            0 <= j < 81 && (forall|i: int| 0 <= i < j ==> a[i] == b[i]) && #[trigger] a[j] < b[j];
        let j2 = choose|j: int|
            0 <= j < 81 && (forall|i: int| 0 <= i < j ==> b[i] == a[i]) && #[trigger] b[j] < a[j];
        if j1 < j2 {
            assert(b[j1] == a[j1]);
        } else if j2 < j1 {
            assert(a[j2] == b[j2]);
        }
        assert(false);
    }
}

/// The solver is deterministic: its contract pins a successful result to
/// the row-major lexicographically least solution of the starting grid, and
/// that least solution is unique.  Hence two calls of [`solve`] on two
/// structurally identical starting boards fill them identically.
pub proof fn lemma_solver_deterministic(s: Seq<u8>, b1: Seq<u8>, b2: Seq<u8>)
    requires
        is_solution_of(b1, s),
        forall|t: Seq<u8>| is_solution_of(t, s) ==> lex_le(b1, t),
        is_solution_of(b2, s),
        forall|t: Seq<u8>| is_solution_of(t, s) ==> lex_le(b2, t),
    ensures
        b1 == b2,
{
    assert(lex_le(b1, b2));
    assert(lex_le(b2, b1));
    lemma_lex_le_antisymmetric(b1, b2);
}

/// The recursive search from cursor `(row, col)` in the row-major walk.
/// Every cell before the cursor is already filled; the search fills the
/// rest or leaves the board exactly as it found it.
fn solve_from(board: &mut Board, row: usize, col: usize) -> (r: bool)
    requires
        old(board).wf(),
        row <= 9,
        col <= 9,
        row == 9 ==> col == 0,
        consistent(old(board)@),
        prefix_filled(old(board)@, row as int * 9 + col as int),
    ensures
        final(board).wf(),
        r ==> is_solution_of(final(board)@, old(board)@),
        r ==> forall|t: Seq<u8>| is_solution_of(t, old(board)@) ==> lex_le(final(board)@, t),
        !r ==> final(board)@ == old(board)@,
        !r ==> forall|t: Seq<u8>| !is_solution_of(t, old(board)@),
    decreases 9 - row, 9 - col,
{
    if row == 9 {
        // The cursor has passed the last cell: the whole grid is filled.
        proof {
            assert forall|i: int| 0 <= i < 81 implies 1 <= #[trigger] board@[i] <= 9 by {
                assert(board@[i] != 0);
            }
            assert forall|t: Seq<u8>| is_solution_of(t, board@) implies lex_le(board@, t) by {
                lemma_full_solution_unique(board@, t);
            }
        }
        return true;
    }
    if col == 9 {
        // End of a row: move to the start of the next row.
        let r = solve_from(board, row + 1, 0);
        return r;
    }
    if board.get_cell(row, col).is_some() {
        // The cell is already filled: make no choice here.
        let r = solve_from(board, row, col + 1);
        return r;
    }

    let ghost s0 = board@;
    let ghost k: int = row as int * 9 + col as int;
    for n in 1u8..10u8
        invariant
            board.wf(),
            board@ == s0,
            s0 == old(board)@,
            wf_seq(s0),
            consistent(s0),
            prefix_filled(s0, k),
            k == row as int * 9 + col as int,
            row < 9,
            col < 9,
            cell(s0, row as int, col as int) == 0,
            forall|t: Seq<u8>| #[trigger] is_solution_of(t, s0) ==> t[k] >= n,
    {
        if is_valid_placement(board, row, col, n) {
            board.set_cell(row, col, n);
            proof {
                lemma_place_preserves_consistent(s0, row as int, col as int, n);
                assert forall|i: int| 0 <= i < k + 1 implies #[trigger] board@[i] != 0 by {
                    if i < k {
                        assert(s0[i] != 0);
                    } else {
                        assert(board@[k] == n);
                    }
                }
            }
            let r = solve_from(board, row, col + 1);
            if r {
                proof {
                    let s1 = s0.update(k, n);
                    lemma_solution_place(s0, board@, row as int, col as int, n);
                    assert(is_solution_of(board@, s0));
                    assert(s1[k] == n);
                    assert(board@[k] == n);
                    assert forall|t: Seq<u8>| is_solution_of(t, s0) implies lex_le(
                        board@,
                        t,
                    ) by {
                        if t[k] == n {
                            assert(cell(t, row as int, col as int) == n);
                            lemma_solution_place(s0, t, row as int, col as int, n);
                            assert(is_solution_of(t, s1));
                        } else {
                            // Smaller digits were ruled out, so `t` holds a
                            // larger digit at the cursor cell.
                            assert(t[k] > n);
                            assert forall|i: int| 0 <= i < k implies board@[i] == t[i] by {
                                assert(s0[i] != 0);
                            }
                            assert(0 <= k < 81 && board@[k] < t[k] && (forall|i: int|
                                0 <= i < k ==> board@[i] == t[i]));
                            assert(lex_le(board@, t));
                        }
                    }
                }
                return true;
            }
            // The commit led nowhere: undo it and try the next digit.
            board.clear_cell(row, col);
            proof {
                assert(board@ =~= s0);
                let s1 = s0.update(k, n);
                assert forall|t: Seq<u8>| #[trigger] is_solution_of(t, s0) implies t[k] >= n
                    + 1 by {
                    if t[k] == n {
                        assert(cell(t, row as int, col as int) == n);
                        lemma_solution_place(s0, t, row as int, col as int, n);
                        assert(is_solution_of(t, s1));
                        assert(false);
                    }
                }
            }
        } else {
            proof {
                assert forall|t: Seq<u8>| #[trigger] is_solution_of(t, s0) implies t[k] >= n
                    + 1 by {
                    if t[k] == n {
                        lemma_solution_placement_valid(s0, t, row as int, col as int);
                        assert(cell(t, row as int, col as int) == n);
                        assert(false);
                    }
                }
            }
        }
    }
    // All nine digits failed at this cell: the grid cannot be completed.
    proof {
        assert forall|t: Seq<u8>| !is_solution_of(t, s0) by {
            if is_solution_of(t, s0) {
                assert(t[k] >= 10);
                assert(1 <= t[k] <= 9);
                assert(false);
            }
        }
    }
    false
}

/// Completes the board by exhaustive depth-first backtracking, walking the
/// cells in row-major order and trying candidate digits in ascending order.
///
/// On success the board is a fully filled, rule-consistent grid that keeps
/// every originally filled cell; among all such completions it is the
/// row-major lexicographically smallest, so the outcome is a function of the
/// starting grid alone.  On failure the board is left untouched, and no
/// completion of the starting grid exists at all.
///
/// The caller supplies a rule-consistent starting grid ([`crate::board::is_consistent`]
/// checks that at run time); what a search would do from a contradictory
/// grid is deliberately left unspecified.
pub fn solve(board: &mut Board) -> (r: bool)
    requires
        old(board).wf(),
        consistent(old(board)@),
    ensures
        final(board).wf(),
        r ==> is_solution_of(final(board)@, old(board)@),
        r ==> forall|t: Seq<u8>| is_solution_of(t, old(board)@) ==> lex_le(final(board)@, t),
        !r ==> final(board)@ == old(board)@,
        r <==> exists|t: Seq<u8>| is_solution_of(t, old(board)@),
{
    let r = solve_from(board, 0, 0);
    proof {
        if r {
            assert(is_solution_of(board@, old(board)@));
        }
    }
    r
}

} // verus!
