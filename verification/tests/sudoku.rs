use sudoku::board::Board;
use sudoku::board::is_consistent;
use sudoku::board::is_valid_placement;
use sudoku::solver::solve;

/// Builds a board from nine rows of digits, `0` meaning an empty cell.
fn board_from(rows: [[u8; 9]; 9]) -> Board {
    let mut b = Board::new();
    for r in 0..9 {
        for c in 0..9 {
            if rows[r][c] != 0 {
                b.set_cell(r, c, rows[r][c]);
            }
        }
    }
    b
}

/// Reads the board back into nine rows of digits, `0` meaning empty.
fn rows_of(b: &Board) -> [[u8; 9]; 9] {
    let mut rows = [[0u8; 9]; 9];
    for r in 0..9 {
        for c in 0..9 {
            rows[r][c] = b.get_cell(r, c).unwrap_or(0);
        }
    }
    rows
}

/// A full, rule-consistent grid whose top-left cell holds 5.
fn shifted_pattern() -> [[u8; 9]; 9] {
    let mut rows = [[0u8; 9]; 9];
    for r in 0..9 {
        for c in 0..9 {
            rows[r][c] = (((3 * (r % 3) + r / 3 + c) + 4) % 9 + 1) as u8;
        }
    }
    rows
}

fn assert_is_complete_solution(rows: &[[u8; 9]; 9]) {
    for r in 0..9 {
        let mut seen = [false; 10];
        for c in 0..9 {
            let d = rows[r][c] as usize;
            assert!((1..=9).contains(&d), "cell ({r},{c}) not a digit");
            assert!(!seen[d], "digit {d} repeated in row {r}");
            seen[d] = true;
        }
    }
    for c in 0..9 {
        let mut seen = [false; 10];
        for r in 0..9 {
            let d = rows[r][c] as usize;
            assert!(!seen[d], "digit {d} repeated in column {c}");
            seen[d] = true;
        }
    }
    for br in 0..3 {
        for bc in 0..3 {
            let mut seen = [false; 10];
            for j in 0..3 {
                for i in 0..3 {
                    let d = rows[br * 3 + j][bc * 3 + i] as usize;
                    assert!(!seen[d], "digit {d} repeated in box ({br},{bc})");
                    seen[d] = true;
                }
            }
        }
    }
}

#[test]
fn valid_placement_row_duplicate() {
    // Row 0 holds a 5 at column 0; a second 5 in row 0 is illegal, a 7 is fine.
    let mut b = Board::new();
    b.set_cell(0, 0, 5);
    assert!(!is_valid_placement(&b, 0, 3, 5));
    assert!(is_valid_placement(&b, 0, 3, 7));
}

#[test]
fn valid_placement_column_duplicate() {
    // Column 0 holds a 5 at row 2; a second 5 anywhere in column 0 is illegal
    // even though row 7 and the box of (7,0) are empty.
    let mut b = Board::new();
    b.set_cell(2, 0, 5);
    assert!(!is_valid_placement(&b, 7, 0, 5));
    assert!(is_valid_placement(&b, 7, 0, 6));
}

#[test]
fn valid_placement_box_duplicate() {
    // (0,0) and (1,1) share a 3x3 box but neither a row nor a column.
    let mut b = Board::new();
    b.set_cell(0, 0, 5);
    assert!(!is_valid_placement(&b, 1, 1, 5));
    assert!(is_valid_placement(&b, 1, 1, 4));
    // Outside the box, the same digit in another row and column is fine.
    assert!(is_valid_placement(&b, 3, 3, 5));
}

#[test]
fn validation_is_idempotent_and_pure() {
    let mut b = Board::new();
    b.set_cell(0, 0, 5);
    b.set_cell(4, 4, 9);
    let before = b.clone();
    let first = is_valid_placement(&b, 0, 3, 5);
    let second = is_valid_placement(&b, 0, 3, 5);
    assert_eq!(first, second);
    assert_eq!(b, before, "validation must not alter the board");
    let third = is_valid_placement(&b, 8, 8, 9);
    let fourth = is_valid_placement(&b, 8, 8, 9);
    assert_eq!(third, fourth);
    assert_eq!(b, before);
}

#[test]
fn solve_single_empty_cell() {
    // 80 cells pre-filled consistently; only 5 fits at (0,0).
    let pattern = shifted_pattern();
    let mut rows = pattern;
    rows[0][0] = 0;
    let mut b = board_from(rows);
    for d in 1..=9u8 {
        assert_eq!(is_valid_placement(&b, 0, 0, d), d == 5);
    }
    assert!(solve(&mut b));
    assert_eq!(rows_of(&b), pattern);
}

#[test]
fn solve_empty_board() {
    let mut b = Board::new();
    assert!(solve(&mut b));
    let rows = rows_of(&b);
    assert_is_complete_solution(&rows);
    assert!(is_consistent(&b));
    // Fixed scan order and ascending candidates give this exact grid.
    let expected = [
        [1, 2, 3, 4, 5, 6, 7, 8, 9],
        [4, 5, 6, 7, 8, 9, 1, 2, 3],
        [7, 8, 9, 1, 2, 3, 4, 5, 6],
        [2, 1, 4, 3, 6, 5, 8, 9, 7],
        [3, 6, 5, 8, 9, 7, 2, 1, 4],
        [8, 9, 7, 2, 1, 4, 3, 6, 5],
        [5, 3, 1, 6, 4, 2, 9, 7, 8],
        [6, 4, 2, 9, 7, 8, 5, 3, 1],
        [9, 7, 8, 5, 3, 1, 6, 4, 2],
    ];
    assert_eq!(rows, expected);
}

#[test]
fn solve_unsolvable_restores_board() {
    // Row 0 holds 1..=8 in columns 0..=7; the 9 at (1,8) rules out every
    // digit at (0,8), so no completion exists.
    let mut rows = [[0u8; 9]; 9];
    for c in 0..8 {
        rows[0][c] = (c + 1) as u8;
    }
    rows[1][8] = 9;
    let mut b = board_from(rows);
    let before = b.clone();
    assert!(!solve(&mut b));
    assert_eq!(b, before, "a failed solve must leave the board unchanged");
    assert_eq!(rows_of(&b), rows);
}

#[test]
fn solve_is_deterministic() {
    // Two structurally identical starting boards end structurally identical.
    let mut rows = [[0u8; 9]; 9];
    rows[0][0] = 5;
    rows[4][4] = 7;
    rows[8][8] = 1;
    let mut b1 = board_from(rows);
    let mut b2 = board_from(rows);
    assert!(solve(&mut b1));
    assert!(solve(&mut b2));
    assert_eq!(rows_of(&b1), rows_of(&b2));
    assert_eq!(b1, b2);
}

#[test]
fn solve_preserves_clues() {
    let mut rows = [[0u8; 9]; 9];
    rows[0][2] = 3;
    rows[3][3] = 8;
    rows[6][7] = 2;
    rows[8][0] = 9;
    let mut b = board_from(rows);
    assert!(solve(&mut b));
    let solved = rows_of(&b);
    assert_is_complete_solution(&solved);
    for r in 0..9 {
        for c in 0..9 {
            if rows[r][c] != 0 {
                assert_eq!(solved[r][c], rows[r][c], "clue at ({r},{c}) changed");
            }
        }
    }
}

#[test]
fn clear_board_empties_all_cells() {
    let mut b = board_from(shifted_pattern());
    b.clear();
    for r in 0..9 {
        for c in 0..9 {
            assert_eq!(b.get_cell(r, c), None);
        }
    }
}

#[test]
fn get_set_and_clear_cell() {
    let mut b = Board::new();
    assert_eq!(b.get_cell(3, 4), None);
    b.set_cell(3, 4, 6);
    assert_eq!(b.get_cell(3, 4), Some(6));
    assert_eq!(b.get_cell(4, 3), None);
    b.set_cell(3, 4, 2);
    assert_eq!(b.get_cell(3, 4), Some(2));
    b.clear_cell(3, 4);
    assert_eq!(b.get_cell(3, 4), None);
}

#[test]
fn consistency_of_empty_and_partial_boards() {
    let b = Board::new();
    assert!(is_consistent(&b));
    let mut rows = [[0u8; 9]; 9];
    rows[0][0] = 5;
    rows[1][4] = 5;
    rows[8][8] = 3;
    assert!(is_consistent(&board_from(rows)));
    assert!(is_consistent(&board_from(shifted_pattern())));
}

#[test]
fn consistency_detects_duplicates() {
    // Row duplicate.
    let mut rows = [[0u8; 9]; 9];
    rows[2][1] = 4;
    rows[2][7] = 4;
    assert!(!is_consistent(&board_from(rows)));
    // Column duplicate.
    let mut rows = [[0u8; 9]; 9];
    rows[0][3] = 6;
    rows[8][3] = 6;
    assert!(!is_consistent(&board_from(rows)));
    // Box duplicate.
    let mut rows = [[0u8; 9]; 9];
    rows[3][3] = 2;
    rows[5][5] = 2;
    assert!(!is_consistent(&board_from(rows)));
}
