//! Cell addressing: flat row-major indices, rows, columns and 3x3 blocks.
//!
//! The 81 cells of a grid are stored row-major, so the cell at grid
//! coordinates `(row, col)` has flat index `row * 9 + col`. A unit is a row,
//! a column or one of the nine non-overlapping 3x3 blocks; each digit may
//! occur at most once per unit.

use vstd::prelude::*;

verus! {

/// A Sudoku digit is an integer 1 through 9.
pub open spec fn digit_ok(d: i8) -> bool {
    1 <= d <= 9
}

/// Row of the cell with flat index `k`.
pub open spec fn row_of(k: int) -> int {
    k / 9
}

/// Column of the cell with flat index `k`.
pub open spec fn col_of(k: int) -> int {
    k % 9
}

/// Index of the 3x3 block that the cell with flat index `k` belongs to.
pub open spec fn block_of(k: int) -> int {
    (row_of(k) / 3) * 3 + col_of(k) / 3
}

/// Two cells share a unit when they lie in the same row, the same column or
/// the same block.
pub open spec fn same_unit(i: int, j: int) -> bool {
    row_of(i) == row_of(j) || col_of(i) == col_of(j) || block_of(i) == block_of(j)
}

/// Row-major flat index of the cell at `(row, col)`.
pub open spec fn flat(row: int, col: int) -> int {
    row * 9 + col
}

/// Flattening a coordinate pair and projecting the flat index back are
/// mutually inverse.
pub proof fn lemma_flat_inverse(row: int, col: int)
    requires
        0 <= row < 9,
        0 <= col < 9,
    ensures
        row_of(flat(row, col)) == row,
        col_of(flat(row, col)) == col,
        0 <= flat(row, col) < 81,
{
    assert((row * 9 + col) / 9 == row && (row * 9 + col) % 9 == col) by (nonlinear_arith)
        requires
            0 <= row < 9,
            0 <= col < 9,
    ;
}

/// Every flat index is the flattening of its own row and column.
pub proof fn lemma_flat_decompose(k: int)
    requires
        0 <= k < 81,
    ensures
        k == flat(row_of(k), col_of(k)),
        0 <= row_of(k) < 9,
        0 <= col_of(k) < 9,
{
    assert(k == 9 * (k / 9) + k % 9 && 0 <= k % 9 < 9 && 0 <= k / 9 < 9) by (nonlinear_arith)
        requires
            0 <= k < 81,
    ;
}

/// Index of the block that the cell at `row:col` belongs to.
pub fn block_index(row: usize, col: usize) -> (r: usize)
    requires
        row < 9,
        col < 9,
    ensures
        r == block_of(flat(row as int, col as int)),
        r < 9,
{
    proof {
        lemma_flat_inverse(row as int, col as int);
        assert(row / 3 < 3 && col / 3 < 3) by (nonlinear_arith)
            requires
                row < 9,
                col < 9,
        ;
    }
    (row / 3) * 3 + col / 3
}

} // verus!
