//! The grid model: boards of 81 cells and the nine cached 3x3 blocks.
//!
//! A board is a `Vec` of 81 cells in row-major order. The block cache holds,
//! for each block, the digits already solved within it, so propagation can
//! test block membership without rescanning the board.

use vstd::prelude::*;
use vstd::pervasive::VecAdditionalExecFns;
use crate::cell::{Cell, cell_ok, cell_same};
use crate::units::{
    block_index, block_of, col_of, digit_ok, flat, lemma_flat_decompose, lemma_flat_inverse,
    row_of, same_unit,
};

verus! {

/// A 9x9 grid: 81 cells in row-major order.
pub type Board = Vec<Cell>;

/// Structural validity of a board: 81 structurally valid cells.
pub open spec fn board_ok(b: Seq<Cell>) -> bool {
    &&& b.len() == 81
    &&& forall|k: int| 0 <= k < 81 ==> cell_ok(#[trigger] b[k])
}

/// Some cell other than `k` in a unit of `k` is solved with `d`.
pub open spec fn solved_in_unit(b: Seq<Cell>, k: int, d: i8) -> bool {
    exists|j: int|
        0 <= j < 81 && j != k && same_unit(j, k) && (#[trigger] b[j]).solution == Some(d)
}

/// Some cell of row `row` is solved with `d`.
pub open spec fn solved_in_row(b: Seq<Cell>, row: int, d: i8) -> bool {
    exists|c: int| 0 <= c < 9 && (#[trigger] b[flat(row, c)]).solution == Some(d)
}

/// Some cell of column `col` is solved with `d`.
pub open spec fn solved_in_col(b: Seq<Cell>, col: int, d: i8) -> bool {
    exists|r: int| 0 <= r < 9 && (#[trigger] b[flat(r, col)]).solution == Some(d)
}

/// Some cell of block `bi` is solved with `d`.
pub open spec fn solved_in_block(b: Seq<Cell>, bi: int, d: i8) -> bool {
    exists|j: int|
        0 <= j < 81 && block_of(j) == bi && (#[trigger] b[j]).solution == Some(d)
}

/// The solved digits of every unit are pairwise distinct: no two distinct
/// cells sharing a row, column or block are solved with the same digit.
pub open spec fn solved_distinct(b: Seq<Cell>) -> bool {
    forall|i: int, j: int|
        #![trigger b[i].solution, b[j].solution]
        0 <= i < 81 && 0 <= j < 81 && i != j && same_unit(i, j) && b[i].solution is Some
            ==> b[i].solution != b[j].solution
}

/// Every cell of the board is solved.
pub open spec fn complete(b: Seq<Cell>) -> bool {
    forall|k: int| 0 <= k < 81 ==> (#[trigger] b[k]).solution is Some
}

/// Every cell solved in `a` keeps the identical solution in `b`.
pub open spec fn preserves_solutions(a: Seq<Cell>, b: Seq<Cell>) -> bool {
    forall|k: int|
        0 <= k < 81 && (#[trigger] a[k]).solution is Some ==> b[k].solution == a[k].solution
}

/// No unsolved cell keeps a candidate digit that a solved cell in one of its
/// units already uses.
pub open spec fn candidates_consistent(b: Seq<Cell>) -> bool {
    forall|k: int, d: i8|
        0 <= k < 81 && (#[trigger] b[k].candidates@.contains(d)) ==> !solved_in_unit(b, k, d)
}

/// Every unsolved cell's candidate list holds exactly the digits not solved
/// in one of its units.
pub open spec fn candidates_exact(b: Seq<Cell>) -> bool {
    forall|k: int, d: i8|
        0 <= k < 81 && b[k].solution is None ==> ((#[trigger] b[k].candidates@.contains(d)) <==> (
        digit_ok(d) && !solved_in_unit(b, k, d)))
}

/// `w` assigns a digit to every cell, no two cells of a unit get the same
/// digit, and every solved cell of `b` keeps its digit: `w` is a solution
/// of the puzzle that `b` poses.
pub open spec fn valid_completion(b: Seq<Cell>, w: Seq<i8>) -> bool {
    &&& w.len() == 81
    &&& forall|k: int| 0 <= k < 81 ==> digit_ok(#[trigger] w[k])
    &&& forall|i: int, j: int|
            #![trigger w[i], w[j]]
            0 <= i < 81 && 0 <= j < 81 && i != j && same_unit(i, j) ==> w[i] != w[j]
    &&& forall|k: int|
            0 <= k < 81 && (#[trigger] b[k]).solution is Some ==> w[k] == b[k].solution->0
}

/// For an unsolved cell, being ruled out by a unit neighbour is the same as
/// the digit being solved in the cell's row, column or block.
pub proof fn lemma_unit_decompose(b: Seq<Cell>, k: int, d: i8)
    requires
        b.len() == 81,
        0 <= k < 81,
        b[k].solution is None,
    ensures
        solved_in_unit(b, k, d) <==> (solved_in_row(b, row_of(k), d)
            || solved_in_col(b, col_of(k), d) || solved_in_block(b, block_of(k), d)),
{
    lemma_flat_decompose(k);
    if solved_in_unit(b, k, d) {
        let j = choose|j: int|
            0 <= j < 81 && j != k && same_unit(j, k) && b[j].solution == Some(d);
        lemma_flat_decompose(j);
        if row_of(j) == row_of(k) {
            assert(b[flat(row_of(k), col_of(j))].solution == Some(d));
        } else if col_of(j) == col_of(k) {
            assert(b[flat(row_of(j), col_of(k))].solution == Some(d));
        } else {
            assert(solved_in_block(b, block_of(k), d));
        }
    }
    if solved_in_row(b, row_of(k), d) {
        let c = choose|c: int| 0 <= c < 9 && b[flat(row_of(k), c)].solution == Some(d);
        let j = flat(row_of(k), c);
        lemma_flat_inverse(row_of(k), c);
        assert(j != k && same_unit(j, k) && b[j].solution == Some(d));
    }
    if solved_in_col(b, col_of(k), d) {
        let r = choose|r: int| 0 <= r < 9 && b[flat(r, col_of(k))].solution == Some(d);
        let j = flat(r, col_of(k));
        lemma_flat_inverse(r, col_of(k));
        assert(j != k && same_unit(j, k) && b[j].solution == Some(d));
    }
    if solved_in_block(b, block_of(k), d) {
        let j = choose|j: int| 0 <= j < 81 && block_of(j) == block_of(k) && b[j].solution == Some(d);
        assert(j != k && same_unit(j, k) && b[j].solution == Some(d));
    }
}

/// One 3x3 block: the digits already solved within it, cached so propagation
/// can check block membership in one scan of at most nine entries.
pub struct Block {
    pub solutions: Vec<i8>,
}

/// The block cache mirrors the board: block `bi` holds exactly the digits
/// solved somewhere within block `bi`.
pub open spec fn blocks_ok(b: Seq<Cell>, blocks: Seq<Block>) -> bool {
    &&& blocks.len() == 9
    &&& forall|bi: int, d: i8|
            #![trigger blocks[bi].solutions@.contains(d)]
            #![trigger solved_in_block(b, bi, d)]
            0 <= bi < 9 ==> (blocks[bi].solutions@.contains(d) <==> solved_in_block(b, bi, d))
}

/// Whether the digit list `v` holds `d`.
pub fn contains_digit(v: &Vec<i8>, d: i8) -> (r: bool)
    ensures
        r == v@.contains(d),
{
    let mut i: usize = 0;
    while i < v.len()
        invariant
            i <= v@.len(),
            forall|j: int| 0 <= j < i ==> v@[j] != d,
        decreases v@.len() - i,
    {
        if v[i] == d {
            assert(v@.contains(d));
            return true;
        }
        i += 1;
    }
    false
}

/// An element-wise copy of a digit list.
pub fn copy_digits(v: &Vec<i8>) -> (r: Vec<i8>)
    ensures
        r@ == v@,
{
    let mut r: Vec<i8> = Vec::new();
    let mut i: usize = 0;
    while i < v.len()
        invariant
            i <= v@.len(),
            r@ == v@.take(i as int),
        decreases v@.len() - i,
    {
        r.push(v[i]);
        proof {
            assert(v@.take(i + 1) =~= v@.take(i as int).push(v@[i as int]));
        }
        i += 1;
    }
    proof {
        assert(v@.take(v@.len() as int) =~= v@);
    }
    r
}

/// `v` extended with `d` unless it already holds it.
pub fn push_unique(v: &Vec<i8>, d: i8) -> (r: Vec<i8>)
    ensures
        forall|x: i8| #[trigger] r@.contains(x) <==> (v@.contains(x) || x == d),
{
    let mut r = copy_digits(v);
    if !contains_digit(&r, d) {
        let ghost before = r@;
        r.push(d);
        proof {
            assert forall|x: i8| #[trigger] r@.contains(x) == (v@.contains(x) || x == d) by {
                if before.contains(x) {
                    let i = choose|i: int| 0 <= i < before.len() && before[i] == x;
                    assert(r@[i] == x);
                }
                if x == d {
                    assert(r@[before.len() as int] == x);
                }
                if r@.contains(x) {
                    let i = choose|i: int| 0 <= i < r@.len() && r@[i] == x;
                    if i < before.len() {
                        assert(before[i] == x);
                    }
                }
            }
        }
    }
    r
}

/// An element-wise copy of a board.
pub fn clone_board(b: &Board) -> (r: Board)
    ensures
        r@.len() == b@.len(),
        forall|k: int| 0 <= k < b@.len() ==> cell_same(#[trigger] r@[k], b@[k]),
{
    let mut r: Vec<Cell> = Vec::new();
    let mut i: usize = 0;
    while i < b.len()
        invariant
            i <= b@.len(),
            r@.len() == i,
            forall|k: int| 0 <= k < i ==> cell_same(#[trigger] r@[k], b@[k]),
        decreases b@.len() - i,
    {
        let c = &b[i];
        let dup = Cell {
            solution: c.solution,
            candidates: copy_digits(&c.candidates),
            candidate: c.candidate,
            candidate_idx: c.candidate_idx,
        };
        r.push(dup);
        i += 1;
    }
    r
}

/// Partitions a board into its nine blocks, deriving each block's
/// solved-digit set by one scan of the board.
pub fn make_blocks(board: &Board) -> (blocks: Vec<Block>)
    requires
        board@.len() == 81,
    ensures
        blocks_ok(board@, blocks@),
{
    let mut blocks: Vec<Block> = Vec::new();
    let mut i: usize = 0;
    while i < 9
        invariant
            i <= 9,
            blocks@.len() == i,
            forall|bi: int| 0 <= bi < i ==> (#[trigger] blocks@[bi]).solutions@.len() == 0,
        decreases 9 - i,
    {
        blocks.push(Block { solutions: Vec::new() });
        i += 1;
    }
    let mut k: usize = 0;
    while k < 81
        invariant
            board@.len() == 81,
            blocks@.len() == 9,
            k <= 81,
            forall|bi: int, d: i8|
                #![trigger blocks@[bi].solutions@.contains(d)]
                0 <= bi < 9 ==> (blocks@[bi].solutions@.contains(d) <==> exists|j: int|
                    0 <= j < k && block_of(j) == bi && (#[trigger] board@[j]).solution == Some(d)),
        decreases 81 - k,
    {
        proof {
            lemma_flat_decompose(k as int);
        }
        let row = k / 9;
        let col = k % 9;
        let sol = board[k].solution;
        if let Some(num) = sol {
            let bi = block_index(row, col);
            assert(bi == block_of(k as int));
            let ghost old_blocks = blocks@;
            let updated = Block { solutions: push_unique(&blocks[bi].solutions, num) };
            blocks.set(bi, updated);
            proof {
                assert forall|bj: int, d: i8|
                    0 <= bj < 9 implies ((#[trigger] blocks@[bj].solutions@.contains(d))
                        <==> exists|j: int|
                        0 <= j < k + 1 && block_of(j) == bj
                            && (#[trigger] board@[j]).solution == Some(d)) by {
                    if bj == bi {
                        if blocks@[bj].solutions@.contains(d) {
                            if old_blocks[bj].solutions@.contains(d) {
                            } else {
                                assert(d == num);
                                assert(block_of(k as int) == bj
                                    && board@[k as int].solution == Some(d));
                            }
                        }
                        if exists|j: int|
                            0 <= j < k + 1 && block_of(j) == bj
                                && board@[j].solution == Some(d) {
                            let j = choose|j: int|
                                0 <= j < k + 1 && block_of(j) == bj
                                    && board@[j].solution == Some(d);
                            if j < k {
                                assert(old_blocks[bj].solutions@.contains(d));
                            } else {
                                assert(d == num);
                            }
                            assert(blocks@[bj].solutions@.contains(d));
                        }
                    } else {
                        assert(blocks@[bj] == old_blocks[bj]);
                        if exists|j: int|
                            0 <= j < k + 1 && block_of(j) == bj
                                && board@[j].solution == Some(d) {
                            let j = choose|j: int|
                                0 <= j < k + 1 && block_of(j) == bj
                                    && board@[j].solution == Some(d);
                            assert(j < k);
                        }
                    }
                }
            }
        } else {
            proof {
                assert forall|bj: int, d: i8|
                    0 <= bj < 9 implies ((#[trigger] blocks@[bj].solutions@.contains(d))
                        <==> exists|j: int|
                        0 <= j < k + 1 && block_of(j) == bj
                            && (#[trigger] board@[j]).solution == Some(d)) by {
                    if exists|j: int|
                        0 <= j < k + 1 && block_of(j) == bj && board@[j].solution == Some(d) {
                        let j = choose|j: int|
                            0 <= j < k + 1 && block_of(j) == bj && board@[j].solution == Some(d);
                        assert(j < k);
                    }
                }
            }
        }
        k += 1;
    }
    proof {
        assert forall|bi: int, d: i8|
            0 <= bi < 9 implies ((#[trigger] blocks@[bi].solutions@.contains(d))
                <==> solved_in_block(board@, bi, d)) by {
            if solved_in_block(board@, bi, d) {
                let j = choose|j: int|
                    0 <= j < 81 && block_of(j) == bi && board@[j].solution == Some(d);
                assert(0 <= j < 81 && block_of(j) == bi && board@[j].solution == Some(d));
            }
        }
    }
    blocks
}

} // verus!
