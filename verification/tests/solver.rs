use sudoku::{block_index, make_blocks, Cell, Sudoku};

fn solved(n: i8) -> Cell {
    Cell::solved(n)
}

fn unsolved() -> Cell {
    Cell::unsolved()
}

/// Builds an 81-cell board from nine rows of digits, 0 meaning unsolved.
fn board_from(rows: [[i8; 9]; 9]) -> Vec<Cell> {
    let mut board = Vec::new();
    for row in rows.iter() {
        for &v in row.iter() {
            if v == 0 {
                board.push(unsolved());
            } else {
                board.push(solved(v));
            }
        }
    }
    board
}

/// The classic example puzzle.
fn default_board() -> Vec<Cell> {
    board_from([
        [0, 0, 5, 0, 0, 8, 0, 0, 0],
        [0, 2, 0, 0, 0, 0, 5, 0, 0],
        [7, 9, 0, 3, 4, 5, 6, 2, 0],
        [0, 0, 0, 6, 0, 4, 7, 1, 0],
        [0, 4, 9, 5, 0, 7, 8, 3, 0],
        [0, 1, 7, 8, 0, 2, 0, 0, 0],
        [0, 5, 4, 7, 8, 3, 0, 9, 6],
        [0, 0, 6, 0, 0, 0, 0, 5, 0],
        [0, 0, 0, 1, 0, 0, 4, 0, 0],
    ])
}

/// Checks that every cell is solved and that no two cells sharing a row,
/// column or block hold the same digit.
fn assert_solved_and_unique(board: &Vec<Cell>) {
    assert_eq!(board.len(), 81);
    for row in 0..9 {
        for col in 0..9 {
            let solution = board[row * 9 + col].solution;
            assert!(matches!(solution, Some(d) if (1..=9).contains(&d)));

            let block_row_start = (row / 3) * 3;
            let block_col_start = (col / 3) * 3;
            for block_row in block_row_start..block_row_start + 3 {
                for block_col in block_col_start..block_col_start + 3 {
                    if block_row == row && block_col == col {
                        continue;
                    }
                    assert_ne!(solution, board[block_row * 9 + block_col].solution);
                }
            }
            for other_col in 0..9 {
                if other_col != col {
                    assert_ne!(solution, board[row * 9 + other_col].solution);
                }
            }
            for other_row in 0..9 {
                if other_row != row {
                    assert_ne!(solution, board[other_row * 9 + col].solution);
                }
            }
        }
    }
}

fn assert_same_set(actual: &Vec<i8>, expected: &[i8]) {
    assert_eq!(actual.len(), expected.len());
    for d in expected {
        assert!(actual.contains(d));
    }
    for d in actual {
        assert!(expected.contains(d));
    }
}

#[test]
fn test_make_blocks() {
    let board = default_board();
    let blocks = make_blocks(&board);
    println!("{:?}", blocks.iter().map(|b| b.solutions.clone()).collect::<Vec<_>>());

    assert_eq!(blocks.len(), 9);
    assert_same_set(&blocks[0].solutions, &[5, 2, 7, 9]);
    assert_same_set(&blocks[1].solutions, &[8, 3, 4, 5]);
    assert_same_set(&blocks[2].solutions, &[5, 6, 2]);
    assert_same_set(&blocks[3].solutions, &[4, 9, 1, 7]);
    assert_same_set(&blocks[4].solutions, &[6, 4, 5, 7, 8, 2]);
    assert_same_set(&blocks[5].solutions, &[7, 8, 1, 3]);
    assert_same_set(&blocks[6].solutions, &[5, 4, 6]);
    assert_same_set(&blocks[7].solutions, &[7, 8, 3, 1]);
    assert_same_set(&blocks[8].solutions, &[9, 6, 5, 4]);
}

#[test]
fn test_solver() {
    let board = default_board();
    let mut sudoku = Sudoku::new(board);
    if let Some(solved_board) = sudoku.solve() {
        assert_solved_and_unique(&solved_board);
    } else {
        assert!(false);
    }
}

#[test]
fn test_cell_constructors() {
    let c = Cell::solved(5);
    assert_eq!(c.solution, Some(5));
    assert!(c.candidates.is_empty());
    assert_eq!(c.candidate, None);
    assert_eq!(c.candidate_idx, None);

    let u = Cell::unsolved();
    assert_eq!(u.solution, None);
    assert!(u.candidates.is_empty());
    assert_eq!(u.candidate, None);
    assert_eq!(u.candidate_idx, None);
}

#[test]
fn test_block_index_formula() {
    assert_eq!(block_index(0, 0), 0);
    assert_eq!(block_index(0, 8), 2);
    assert_eq!(block_index(4, 7), 5);
    assert_eq!(block_index(8, 0), 6);
    assert_eq!(block_index(8, 8), 8);
}

#[test]
fn test_removal_of_absent_digit_is_noop() {
    let cell = Cell {
        solution: None,
        candidates: vec![1, 3, 5],
        candidate: None,
        candidate_idx: None,
    };
    let same = sudoku::cell::without_candidate(&cell, 7);
    assert_eq!(same.solution, cell.solution);
    assert_eq!(same.candidates, cell.candidates);
    assert_eq!(same.candidate, cell.candidate);
    assert_eq!(same.candidate_idx, cell.candidate_idx);
}

#[test]
fn test_removal_of_present_digit() {
    let cell = Cell {
        solution: None,
        candidates: vec![1, 3, 5],
        candidate: None,
        candidate_idx: None,
    };
    let fewer = sudoku::cell::without_candidate(&cell, 3);
    assert_eq!(fewer.candidates, vec![1, 5]);
}

#[test]
fn test_duplicate_prefill_in_row_rejected() {
    let mut rows = [[0i8; 9]; 9];
    rows[0][0] = 5;
    rows[0][3] = 5;
    let mut sudoku = Sudoku::new(board_from(rows));
    assert!(sudoku.solve().is_none());
}

#[test]
fn test_duplicate_prefill_in_col_rejected() {
    let mut rows = [[0i8; 9]; 9];
    rows[1][2] = 8;
    rows[7][2] = 8;
    let mut sudoku = Sudoku::new(board_from(rows));
    assert!(sudoku.solve().is_none());
}

#[test]
fn test_duplicate_prefill_in_block_rejected() {
    let mut rows = [[0i8; 9]; 9];
    rows[0][0] = 9;
    rows[2][2] = 9;
    let mut sudoku = Sudoku::new(board_from(rows));
    assert!(sudoku.solve().is_none());
}

#[test]
fn test_unsolvable_with_distinct_prefills() {
    // Row 0 uses digits 1 through 8 and the bottom-left cell holds 9, so the
    // top-left cell has no digit left; the pre-filled cells are pairwise
    // distinct in every unit, so only the exhaustive search can notice.
    let mut rows = [[0i8; 9]; 9];
    for c in 1..9 {
        rows[0][c] = c as i8;
    }
    rows[8][0] = 9;
    let mut sudoku = Sudoku::new(board_from(rows));
    assert!(sudoku.solve().is_none());
}

#[test]
fn test_end_to_end_deterministic() {
    let mut first = Sudoku::new(default_board());
    let out1 = first.solve().expect("the classic puzzle is solvable");
    let mut second = Sudoku::new(default_board());
    let out2 = second.solve().expect("the classic puzzle is solvable");

    assert_solved_and_unique(&out1);
    let input = default_board();
    for k in 0..81 {
        if input[k].solution.is_some() {
            assert_eq!(out1[k].solution, input[k].solution);
        }
        assert_eq!(out1[k].solution, out2[k].solution);
    }
}

#[test]
fn test_backtracking_recovers_from_wrong_first_candidate() {
    // Nearly complete grid whose four central gaps leave two cells with the
    // candidate pair {5, 6} after propagation; the search tries 5 first at
    // the first of them, runs into a dead end, and must back up.
    let rows = [
        [3, 0, 5, 2, 7, 8, 1, 4, 9],
        [4, 2, 8, 9, 6, 1, 0, 7, 3],
        [7, 9, 1, 3, 4, 5, 6, 2, 8],
        [2, 8, 3, 0, 0, 4, 7, 1, 0],
        [0, 4, 9, 0, 1, 7, 8, 0, 2],
        [0, 1, 7, 8, 3, 2, 9, 0, 4],
        [1, 5, 4, 7, 8, 3, 2, 9, 6],
        [0, 7, 6, 4, 2, 9, 3, 5, 1],
        [9, 3, 2, 0, 5, 6, 4, 8, 7],
    ];

    // Propagation alone does not finish: cell (4,0) keeps the two
    // candidates 5 and 6, in ascending order.
    let mut probe = Sudoku::new(board_from(rows));
    probe.find_candidates();
    assert_eq!(probe.board[36].solution, None);
    assert_eq!(probe.board[36].candidates, vec![5, 6]);
    assert_eq!(probe.board[39].solution, None);
    assert_eq!(probe.board[39].candidates, vec![5, 6]);

    let mut sudoku = Sudoku::new(board_from(rows));
    let out = sudoku.solve().expect("the trap puzzle is solvable");
    assert_solved_and_unique(&out);
    // The first candidate tried at cell (4,0), the digit 5, was wrong: the
    // solved grid holds 6 there, so the search undid a tentative choice.
    assert_eq!(out[36].solution, Some(6));
    let input = board_from(rows);
    for k in 0..81 {
        if input[k].solution.is_some() {
            assert_eq!(out[k].solution, input[k].solution);
        }
    }
}
