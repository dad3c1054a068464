//! The solving engine.
//!
//! `solve` first rejects a board whose pre-filled cells already violate the
//! uniqueness invariant, then runs one constraint-propagation sweep
//! (`find_candidates`) and finally a backtracking search
//! (`guess_solutions`). Every board it returns is proved complete, free of
//! duplicate digits in any unit, and faithful to the input's solved cells;
//! and it returns a board exactly when the pre-filled cells are consistent
//! and some valid completion of them exists.

use vstd::prelude::*;
use vstd::pervasive::VecAdditionalExecFns;
use crate::cell::{
    cell_ok, cell_same, lemma_remove_digit_contains, remove_digit, without_candidate, Cell,
};
use crate::grid::{
    blocks_ok, board_ok, candidates_consistent, candidates_exact, clone_board, complete,
    contains_digit, copy_digits, lemma_unit_decompose, make_blocks, preserves_solutions,
    push_unique, solved_distinct, solved_in_block, solved_in_col, solved_in_row, solved_in_unit,
    valid_completion, Block, Board,
};
use crate::units::{
    block_index, block_of, col_of, digit_ok, flat, lemma_flat_decompose, lemma_flat_inverse,
    row_of, same_unit,
};

verus! {

broadcast use vstd::seq_lib::lemma_seq_contains_after_push;

/// The board cells after committing `d` at cell `k`: cell `k` is solved with
/// `d` and carries no candidate state, every other cell keeps its fields
/// except that `d` is removed from the candidate lists of the cells sharing
/// a unit with `k`.
pub open spec fn committed(b0: Seq<Cell>, b: Seq<Cell>, k: int, d: i8) -> bool {
    &&& b.len() == 81
    &&& b[k].solution == Some(d)
    &&& b[k].candidates@.len() == 0
    &&& b[k].candidate is None
    &&& b[k].candidate_idx is None
    &&& forall|j: int|
            0 <= j < 81 && j != k ==> (#[trigger] b[j]).solution == b0[j].solution
                && b[j].candidate == b0[j].candidate && b[j].candidate_idx == b0[j].candidate_idx
                && b[j].candidates@ == (if same_unit(j, k) {
                    remove_digit(b0[j].candidates@, d)
                } else {
                    b0[j].candidates@
                })
}

/// Committing a digit that no unit neighbour uses keeps the solved digits of
/// every unit pairwise distinct.
pub proof fn lemma_commit_keeps_distinct(b0: Seq<Cell>, b: Seq<Cell>, k: int, d: i8)
    requires
        b0.len() == 81,
        0 <= k < 81,
        solved_distinct(b0),
        b0[k].solution is None,
        !solved_in_unit(b0, k, d),
        committed(b0, b, k, d),
    ensures
        solved_distinct(b),
{
    assert forall|i: int, j: int|
        0 <= i < 81 && 0 <= j < 81 && i != j && same_unit(i, j) && b[i].solution is Some
        implies #[trigger] b[i].solution != #[trigger] b[j].solution by {
        if i == k {
            if b[j].solution == Some(d) {
                assert(b0[j].solution == Some(d));
                assert(same_unit(j, k));
                assert(solved_in_unit(b0, k, d));
            }
        } else if j == k {
            if b[i].solution == Some(d) {
                assert(b0[i].solution == Some(d));
                assert(same_unit(i, k));
                assert(solved_in_unit(b0, k, d));
            }
        } else {
            assert(b[i].solution == b0[i].solution && b[j].solution == b0[j].solution);
        }
    }
}

/// A Sudoku solver instance: the board being solved together with the
/// per-block cache of solved digits.
pub struct Sudoku {
    pub board: Board,
    pub blocks: Vec<Block>,
}

impl Sudoku {
    /// Well-formedness: a structurally valid board whose block cache mirrors
    /// its solved digits.
    pub open spec fn wf(self) -> bool {
        &&& board_ok(self.board@)
        &&& blocks_ok(self.board@, self.blocks@)
    }

    /// Builds a solver for `board`, deriving the block cache from it.
    pub fn new(board: Board) -> (s: Sudoku)
        requires
            board_ok(board@),
        ensures
            s.wf(),
            s.board@ == board@,
    {
        let blocks = make_blocks(&board);
        Sudoku { board, blocks }
    }

    /// Whether the already solved cells obey the uniqueness invariant: no
    /// two distinct cells of a unit solved with the same digit.
    #[verifier::loop_isolation(false)]
    pub fn solved_cells_valid(&self) -> (r: bool)
        requires
            self.board@.len() == 81,
        ensures
            r == solved_distinct(self.board@),
    {
        let mut i: usize = 0;
        while i < 81
            invariant
                i <= 81,
                forall|i2: int, j2: int|
                    #![trigger self.board@[i2].solution, self.board@[j2].solution]
                    0 <= i2 < i && 0 <= j2 < 81 && i2 != j2 && same_unit(i2, j2)
                        && self.board@[i2].solution is Some
                        ==> self.board@[i2].solution != self.board@[j2].solution,
            decreases 81 - i,
        {
            let mut j: usize = 0;
            while j < 81
                invariant
                    i < 81,
                    j <= 81,
                    forall|j2: int|
                        #![trigger self.board@[j2].solution]
                        0 <= j2 < j && i as int != j2 && same_unit(i as int, j2)
                            && self.board@[i as int].solution is Some
                            ==> self.board@[i as int].solution != self.board@[j2].solution,
                decreases 81 - j,
            {
                if j != i && cells_share_unit(i, j) {
                    if let Some(a) = self.board[i].solution {
                        if let Some(bd) = self.board[j].solution {
                            if a == bd {
                                assert(!solved_distinct(self.board@)) by {
                                    assert(self.board@[i as int].solution
                                        == self.board@[j as int].solution);
                                }
                                return false;
                            }
                        }
                    }
                }
                j += 1;
            }
            i += 1;
        }
        true
    }

    /// Whether some cell of row `row` is solved with `d`.
    #[verifier::loop_isolation(false)]
    fn row_has_solution(&self, row: usize, d: i8) -> (r: bool)
        requires
            self.board@.len() == 81,
            row < 9,
        ensures
            r == solved_in_row(self.board@, row as int, d),
    {
        let mut c: usize = 0;
        while c < 9
            invariant
                c <= 9,
                forall|c2: int|
                    0 <= c2 < c ==> (#[trigger] self.board@[flat(row as int, c2)]).solution
                        != Some(d),
            decreases 9 - c,
        {
            proof {
                lemma_flat_inverse(row as int, c as int);
            }
            let idx = row * 9 + c;
            if let Some(s) = self.board[idx].solution {
                if s == d {
                    assert(self.board@[flat(row as int, c as int)].solution == Some(d));
                    return true;
                }
            }
            c += 1;
        }
        false
    }

    /// Whether some cell of column `col` is solved with `d`.
    #[verifier::loop_isolation(false)]
    fn col_has_solution(&self, col: usize, d: i8) -> (r: bool)
        requires
            self.board@.len() == 81,
            col < 9,
        ensures
            r == solved_in_col(self.board@, col as int, d),
    {
        let mut r: usize = 0;
        while r < 9
            invariant
                r <= 9,
                forall|r2: int|
                    0 <= r2 < r ==> (#[trigger] self.board@[flat(r2, col as int)]).solution
                        != Some(d),
            decreases 9 - r,
        {
            proof {
                lemma_flat_inverse(r as int, col as int);
            }
            let idx = r * 9 + col;
            if let Some(s) = self.board[idx].solution {
                if s == d {
                    assert(self.board@[flat(r as int, col as int)].solution == Some(d));
                    return true;
                }
            }
            r += 1;
        }
        false
    }

    /// Collects, in ascending order, every digit not already solved in the
    /// row, column or block of the unsolved cell at `row:col`.
    #[verifier::loop_isolation(false)]
    pub fn find_cell_candidates(&self, row: usize, col: usize) -> (r: Vec<i8>)
        requires
            self.wf(),
            row < 9,
            col < 9,
            self.board@[flat(row as int, col as int)].solution is None,
        ensures
            forall|d: i8| #[trigger]
                r@.contains(d) <==> (digit_ok(d) && !solved_in_unit(
                    self.board@,
                    flat(row as int, col as int),
                    d,
                )),
            forall|a: int, b: int| 0 <= a < b < r@.len() ==> r@[a] < r@[b],
    {
        proof {
            lemma_flat_inverse(row as int, col as int);
        }
        let ghost k = flat(row as int, col as int);
        let bi = block_index(row, col);
        let mut r: Vec<i8> = Vec::new();
        let mut cand: i8 = 1;
        while cand <= 9
            invariant
                1 <= cand <= 10,
                forall|d: i8| #[trigger]
                    r@.contains(d) <==> (1 <= d < cand && !solved_in_unit(self.board@, k, d)),
                forall|t: int| 0 <= t < r@.len() ==> #[trigger] r@[t] < cand,
                forall|a: int, b: int| 0 <= a < b < r@.len() ==> r@[a] < r@[b],
            decreases 10 - cand,
        {
            let in_block = contains_digit(&self.blocks[bi].solutions, cand);
            let in_col = self.col_has_solution(col, cand);
            let in_row = self.row_has_solution(row, cand);
            proof {
                lemma_unit_decompose(self.board@, k, cand);
            }
            if !in_block && !in_col && !in_row {
                r.push(cand);
            }
            cand += 1;
        }
        r
    }
}

impl Sudoku {
    /// Stores a freshly computed candidate list on cell `k`, keeping the
    /// cell's other fields.
    fn set_candidates(&mut self, k: usize, cands: Vec<i8>)
        requires
            old(self).board@.len() == 81,
            k < 81,
        ensures
            final(self).board@.len() == 81,
            final(self).blocks@ == old(self).blocks@,
            forall|t: int| 0 <= t < 81 && t != k ==> #[trigger] final(self).board@[t]
                == old(self).board@[t],
            final(self).board@[k as int].solution == old(self).board@[k as int].solution,
            final(self).board@[k as int].candidate == old(self).board@[k as int].candidate,
            final(self).board@[k as int].candidate_idx == old(self).board@[
                k as int
            ].candidate_idx,
            final(self).board@[k as int].candidates@ == cands@,
    {
        let c = &self.board[k];
        let newc = Cell {
            solution: c.solution,
            candidates: cands,
            candidate: c.candidate,
            candidate_idx: c.candidate_idx,
        };
        self.board.set(k, newc);
    }

    /// Commits `solution` at the unsolved cell `row:col`: marks it solved,
    /// registers the digit in its block's cache, and removes the digit from
    /// the candidate list of every cell in the same row, column and block.
    #[verifier::loop_isolation(false)]
    #[verifier::rlimit(60)]
    fn found_solution(&mut self, row: usize, col: usize, solution: i8)
        requires
            old(self).wf(),
            row < 9,
            col < 9,
            digit_ok(solution),
            old(self).board@[flat(row as int, col as int)].solution is None,
            !solved_in_unit(old(self).board@, flat(row as int, col as int), solution),
        ensures
            final(self).wf(),
            committed(
                old(self).board@,
                final(self).board@,
                flat(row as int, col as int),
                solution,
            ),
    {
        proof {
            lemma_flat_inverse(row as int, col as int);
        }
        let k = row * 9 + col;
        let ghost b0 = self.board@;
        self.board.set(k, Cell::solved(solution));
        let bi = block_index(row, col);
        let updated = Block { solutions: push_unique(&self.blocks[bi].solutions, solution) };
        self.blocks.set(bi, updated);
        let ghost b1 = self.board@;
        let ghost blocks1 = self.blocks@;
        assert(bi == block_of(k as int));

        let mut j: usize = 0;
        while j < 81
            invariant
                j <= 81,
                self.board@.len() == 81,
                self.blocks@ == blocks1,
                forall|t: int| j <= t < 81 ==> #[trigger] self.board@[t] == b1[t],
                forall|t: int|
                    0 <= t < j ==> (#[trigger] self.board@[t]).solution == b1[t].solution
                        && self.board@[t].candidate == b1[t].candidate
                        && self.board@[t].candidate_idx == b1[t].candidate_idx
                        && self.board@[t].candidates@ == (if same_unit(t, k as int) {
                            remove_digit(b1[t].candidates@, solution)
                        } else {
                            b1[t].candidates@
                        }),
            decreases 81 - j,
        {
            if cells_share_unit(j, k) {
                let cnew = without_candidate(&self.board[j], solution);
                self.board.set(j, cnew);
            }
            j += 1;
        }
        proof {
            assert(b1[k as int].candidates@.len() == 0);
            assert(remove_digit(b1[k as int].candidates@, solution) =~= Seq::<i8>::empty());
            assert(committed(b0, self.board@, k as int, solution));
            assert forall|t: int| 0 <= t < 81 implies cell_ok(#[trigger] self.board@[t]) by {
                if t != k as int {
                    assert(cell_ok(b0[t]));
                    if same_unit(t, k as int) {
                        assert forall|d: i8| #[trigger]
                            self.board@[t].candidates@.contains(d) implies digit_ok(d) by {
                            lemma_remove_digit_contains(b0[t].candidates@, solution, d);
                        }
                        if self.board@[t].solution is Some {
                            assert(b0[t].candidates@.len() == 0);
                            assert(remove_digit(b0[t].candidates@, solution)
                                =~= Seq::<i8>::empty());
                        }
                    }
                }
            }
            assert forall|bj: int, d: i8|
                0 <= bj < 9 implies ((#[trigger] self.blocks@[bj].solutions@.contains(d))
                    <==> solved_in_block(self.board@, bj, d)) by {
                if bj == bi as int {
                    if self.blocks@[bj].solutions@.contains(d) {
                        if old(self).blocks@[bj].solutions@.contains(d) {
                            assert(solved_in_block(b0, bj, d));
                            let w = choose|w: int|
                                0 <= w < 81 && block_of(w) == bj && b0[w].solution == Some(d);
                            assert(self.board@[w].solution == Some(d));
                            assert(solved_in_block(self.board@, bj, d));
                        } else {
                            assert(d == solution);
                            assert(self.board@[k as int].solution == Some(d));
                            assert(solved_in_block(self.board@, bj, d));
                        }
                    }
                    if solved_in_block(self.board@, bj, d) {
                        let w = choose|w: int|
                            0 <= w < 81 && block_of(w) == bj && self.board@[w].solution
                                == Some(d);
                        if w == k as int {
                            assert(d == solution);
                        } else {
                            assert(b0[w].solution == Some(d));
                            assert(solved_in_block(b0, bj, d));
                            assert(old(self).blocks@[bj].solutions@.contains(d));
                        }
                        assert(self.blocks@[bj].solutions@.contains(d));
                    }
                } else {
                    assert(self.blocks@[bj] == old(self).blocks@[bj]);
                    if self.blocks@[bj].solutions@.contains(d) {
                        assert(solved_in_block(b0, bj, d));
                        let w = choose|w: int|
                            0 <= w < 81 && block_of(w) == bj && b0[w].solution == Some(d);
                        assert(w != k as int);
                        assert(self.board@[w].solution == Some(d));
                        assert(solved_in_block(self.board@, bj, d));
                    }
                    if solved_in_block(self.board@, bj, d) {
                        let w = choose|w: int|
                            0 <= w < 81 && block_of(w) == bj && self.board@[w].solution
                                == Some(d);
                        assert(w != k as int);
                        assert(b0[w].solution == Some(d));
                        assert(solved_in_block(b0, bj, d));
                    }
                }
            }
        }
    }

    /// Runs the constraint-propagation sweep: every unsolved cell is
    /// assigned the digits not already solved in its units, and a cell left
    /// with exactly one candidate is committed on the spot, which narrows
    /// the lists of the cells visited later in the same pass. Afterwards
    /// every unsolved cell's candidate list is exact, and every solution of
    /// the input puzzle is still a solution of the narrowed board.
    #[verifier::loop_isolation(false)]
    #[verifier::rlimit(100)]
    pub fn find_candidates(&mut self)
        requires
            old(self).wf(),
            solved_distinct(old(self).board@),
        ensures
            final(self).wf(),
            solved_distinct(final(self).board@),
            candidates_consistent(final(self).board@),
            candidates_exact(final(self).board@),
            preserves_solutions(old(self).board@, final(self).board@),
            forall|w: Seq<i8>| #[trigger] valid_completion(old(self).board@, w)
                ==> valid_completion(final(self).board@, w),
    {
        let mut k: usize = 0;
        while k < 81
            invariant
                k <= 81,
                self.wf(),
                solved_distinct(self.board@),
                preserves_solutions(old(self).board@, self.board@),
                forall|t: int, dd: i8|
                    0 <= t < k && self.board@[t].solution is None ==> ((
                    #[trigger] self.board@[t].candidates@.contains(dd)) <==> (digit_ok(dd)
                        && !solved_in_unit(self.board@, t, dd))),
                forall|w: Seq<i8>| #[trigger] valid_completion(old(self).board@, w)
                    ==> valid_completion(self.board@, w),
            decreases 81 - k,
        {
            proof {
                lemma_flat_decompose(k as int);
            }
            let sol = self.board[k].solution;
            if sol.is_none() {
                let row = k / 9;
                let col = k % 9;
                let cands = self.find_cell_candidates(row, col);
                let ghost bpre = self.board@;
                if cands.len() == 1 {
                    let d = cands[0];
                    assert(cands@.contains(d));
                    self.found_solution(row, col, d);
                    proof {
                        lemma_commit_keeps_distinct(bpre, self.board@, k as int, d);
                        assert forall|t: int|
                            0 <= t < 81 && bpre[t].solution is Some
                            implies (#[trigger] self.board@[t]).solution == bpre[t].solution by {
                            assert(t != k as int);
                        }
                        assert forall|t: int, dd: i8|
                            0 <= t < k + 1 && self.board@[t].solution is None
                            implies ((#[trigger] self.board@[t].candidates@.contains(dd)) <==> (
                        digit_ok(dd) && !solved_in_unit(self.board@, t, dd))) by {
                            assert(t != k as int);
                            if same_unit(t, k as int) {
                                lemma_remove_digit_contains(bpre[t].candidates@, d, dd);
                                assert(self.board@[k as int].solution == Some(d));
                                assert(solved_in_unit(self.board@, t, d));
                            } else {
                                assert(self.board@[t].candidates@ == bpre[t].candidates@);
                            }
                            if solved_in_unit(self.board@, t, dd) && !solved_in_unit(
                                bpre,
                                t,
                                dd,
                            ) {
                                let w = choose|w: int|
                                    0 <= w < 81 && w != t && same_unit(w, t) && self.board@[
                                        w
                                    ].solution == Some(dd);
                                assert(w == k as int);
                                assert(dd == d);
                            }
                            if solved_in_unit(bpre, t, dd) {
                                let w = choose|w: int|
                                    0 <= w < 81 && w != t && same_unit(w, t) && bpre[w].solution
                                        == Some(dd);
                                assert(w != k as int);
                                assert(self.board@[w].solution == Some(dd));
                                assert(solved_in_unit(self.board@, t, dd));
                            }
                        }
                        assert forall|w: Seq<i8>| #[trigger] valid_completion(
                            old(self).board@,
                            w,
                        ) implies valid_completion(self.board@, w) by {
                            assert(valid_completion(bpre, w));
                            assert(!solved_in_unit(bpre, k as int, w[k as int])) by {
                                if solved_in_unit(bpre, k as int, w[k as int]) {
                                    let j = choose|j: int|
                                        0 <= j < 81 && j != k as int && same_unit(j, k as int)
                                            && bpre[j].solution == Some(w[k as int]);
                                    assert(w[j] == w[k as int]);
                                }
                            }
                            assert(cands@.contains(w[k as int]));
                            assert(w[k as int] == d) by {
                                let i0 = choose|i0: int|
                                    0 <= i0 < cands@.len() && cands@[i0] == w[k as int];
                                assert(i0 == 0);
                            }
                            assert forall|t: int|
                                0 <= t < 81 && (#[trigger] self.board@[t]).solution is Some
                                implies w[t] == self.board@[t].solution->0 by {
                                if t != k as int {
                                    assert(bpre[t].solution == self.board@[t].solution);
                                }
                            }
                        }
                    }
                } else {
                    let ghost cseq = cands@;
                    self.set_candidates(k, cands);
                    proof {
                        assert forall|t: int|
                            0 <= t < 81 implies (#[trigger] self.board@[t]).solution
                            == bpre[t].solution by {}
                        assert forall|t: int| 0 <= t < 81 implies cell_ok(
                            #[trigger] self.board@[t],
                        ) by {
                            assert(cell_ok(bpre[t]));
                        }
                        assert forall|bj: int, dd: i8|
                            0 <= bj < 9 implies ((#[trigger] self.blocks@[
                            bj
                        ].solutions@.contains(dd)) <==> solved_in_block(
                            self.board@,
                            bj,
                            dd,
                        )) by {
                            if solved_in_block(self.board@, bj, dd) {
                                let w = choose|w: int|
                                    0 <= w < 81 && block_of(w) == bj && self.board@[w].solution
                                        == Some(dd);
                                assert(bpre[w].solution == Some(dd));
                                assert(solved_in_block(bpre, bj, dd));
                            }
                            if solved_in_block(bpre, bj, dd) {
                                let w = choose|w: int|
                                    0 <= w < 81 && block_of(w) == bj && bpre[w].solution
                                        == Some(dd);
                                assert(self.board@[w].solution == Some(dd));
                                assert(solved_in_block(self.board@, bj, dd));
                            }
                        }
                        assert forall|i2: int, j2: int|
                            0 <= i2 < 81 && 0 <= j2 < 81 && i2 != j2 && same_unit(i2, j2)
                                && self.board@[i2].solution is Some
                            implies #[trigger] self.board@[i2].solution != #[trigger] self.board@[
                            j2
                        ].solution by {
                            assert(bpre[i2].solution == self.board@[i2].solution);
                            assert(bpre[j2].solution == self.board@[j2].solution);
                        }
                        assert forall|t: int, dd: i8|
                            0 <= t < k + 1 && self.board@[t].solution is None
                            implies ((#[trigger] self.board@[t].candidates@.contains(dd)) <==> (
                        digit_ok(dd) && !solved_in_unit(self.board@, t, dd))) by {
                            if solved_in_unit(self.board@, t, dd) {
                                let w = choose|w: int|
                                    0 <= w < 81 && w != t && same_unit(w, t)
                                        && self.board@[w].solution == Some(dd);
                                assert(bpre[w].solution == Some(dd));
                                assert(solved_in_unit(bpre, t, dd));
                            }
                            if solved_in_unit(bpre, t, dd) {
                                let w = choose|w: int|
                                    0 <= w < 81 && w != t && same_unit(w, t) && bpre[w].solution
                                        == Some(dd);
                                assert(self.board@[w].solution == Some(dd));
                                assert(solved_in_unit(self.board@, t, dd));
                            }
                            if t == k as int {
                                assert(self.board@[t].candidates@ == cseq);
                            } else {
                                assert(self.board@[t] == bpre[t]);
                            }
                        }
                        assert forall|w: Seq<i8>| #[trigger] valid_completion(
                            old(self).board@,
                            w,
                        ) implies valid_completion(self.board@, w) by {
                            assert(valid_completion(bpre, w));
                            assert forall|t: int|
                                0 <= t < 81 && (#[trigger] self.board@[t]).solution is Some
                                implies w[t] == self.board@[t].solution->0 by {
                                assert(bpre[t].solution == self.board@[t].solution);
                            }
                        }
                    }
                }
            }
            k += 1;
        }
        proof {
            assert forall|t: int, dd: i8|
                0 <= t < 81 && (#[trigger] self.board@[t].candidates@.contains(dd))
                implies !solved_in_unit(self.board@, t, dd) by {
                if self.board@[t].solution is Some {
                    assert(cell_ok(self.board@[t]));
                    assert(self.board@[t].candidates@.len() == 0);
                }
            }
        }
    }
}

/// Whether cells `i` and `j` share a row, a column or a block.
#[verifier::loop_isolation(false)]
pub fn cells_share_unit(i: usize, j: usize) -> (r: bool)
    requires
        i < 81,
        j < 81,
    ensures
        r == same_unit(i as int, j as int),
{
    proof {
        lemma_flat_decompose(i as int);
        lemma_flat_decompose(j as int);
    }
    if i / 9 == j / 9 {
        return true;
    }
    if i % 9 == j % 9 {
        return true;
    }
    block_index(i / 9, i % 9) == block_index(j / 9, j % 9)
}

/// The boards agree on every cell's solution and candidate list; only the
/// tentative search fields may differ.
pub open spec fn same_skeleton(a: Seq<Cell>, b: Seq<Cell>) -> bool {
    &&& a.len() == 81
    &&& b.len() == 81
    &&& forall|k: int|
            0 <= k < 81 ==> (#[trigger] b[k]).solution == a[k].solution && b[k].candidates@
                == a[k].candidates@
}

/// `us` lists exactly the unsolved cells of the board, in increasing
/// row-major order.
pub open spec fn us_ok(b: Seq<Cell>, us: Seq<usize>) -> bool {
    &&& forall|j: int|
            0 <= j < us.len() ==> (#[trigger] us[j]) < 81 && b[us[j] as int].solution is None
    &&& forall|j1: int, j2: int|
            0 <= j1 < j2 < us.len() ==> (#[trigger] us[j1]) < (#[trigger] us[j2])
    &&& forall|k: int| 0 <= k < 81 && (#[trigger] b[k]).solution is None ==> us.contains(k as usize)
}

/// The searched cells before position `n` hold tentative candidates drawn
/// from their own candidate lists, pairwise distinct within every unit.
pub open spec fn chosen_ok(b: Seq<Cell>, us: Seq<usize>, n: int) -> bool {
    &&& forall|j: int|
            0 <= j < n ==> (#[trigger] b[us[j] as int].candidate) is Some && b[us[
                j
            ] as int].candidates@.contains(b[us[j] as int].candidate->0)
    &&& forall|j1: int, j2: int|
            #![trigger b[us[j1] as int].candidate, b[us[j2] as int].candidate]
            0 <= j1 < j2 < n && same_unit(us[j1] as int, us[j2] as int) ==> b[us[
                j1
            ] as int].candidate != b[us[j2] as int].candidate
}

/// The searched cells from position `n` on carry no tentative state.
pub open spec fn cleared_from(b: Seq<Cell>, us: Seq<usize>, n: int) -> bool {
    forall|j: int|
        n <= j < us.len() ==> (#[trigger] b[us[j] as int].candidate) is None && b[us[
            j
        ] as int].candidate_idx is None
}

/// An unsolved cell before `k` in row-major order shares a unit with `k`
/// and is currently trying `d`.
pub open spec fn tentative_conflict(b: Seq<Cell>, k: int, d: i8) -> bool {
    exists|j: int|
        0 <= j < k && same_unit(j, k) && (#[trigger] b[j]).solution is None && b[j].candidate
            == Some(d)
}

/// `w` matches the tentative candidates of the first `n` searched cells.
pub open spec fn agrees(b: Seq<Cell>, us: Seq<usize>, n: int, w: Seq<i8>) -> bool {
    forall|j: int| 0 <= j < n ==> w[(#[trigger] us[j]) as int] == b[us[j] as int].candidate->0
}

/// A solution of the puzzle a board poses is a solution for every board
/// with the same solved digits.
pub proof fn lemma_completion_same_solutions(a: Seq<Cell>, b: Seq<Cell>, w: Seq<i8>)
    requires
        a.len() == 81,
        b.len() == 81,
        forall|k: int| 0 <= k < 81 ==> (#[trigger] b[k]).solution == a[k].solution,
        valid_completion(a, w),
    ensures
        valid_completion(b, w),
{
    assert forall|k: int|
        0 <= k < 81 && (#[trigger] b[k]).solution is Some implies w[k] == b[k].solution->0 by {
        assert(a[k].solution == b[k].solution);
    }
}

/// Candidate exactness carries to every board with the same solutions and
/// candidate lists.
pub proof fn lemma_exact_same_skeleton(a: Seq<Cell>, b: Seq<Cell>)
    requires
        a.len() == 81,
        b.len() == 81,
        forall|k: int|
            0 <= k < 81 ==> (#[trigger] b[k]).solution == a[k].solution && b[k].candidates@
                == a[k].candidates@,
        candidates_exact(a),
    ensures
        candidates_exact(b),
{
    assert forall|k: int, d: i8|
        0 <= k < 81 && b[k].solution is None implies ((#[trigger] b[k].candidates@.contains(d))
            <==> (digit_ok(d) && !solved_in_unit(b, k, d))) by {
        if solved_in_unit(b, k, d) {
            let w = choose|w: int|
                0 <= w < 81 && w != k && same_unit(w, k) && b[w].solution == Some(d);
            assert(a[w].solution == Some(d));
            assert(solved_in_unit(a, k, d));
        }
        if solved_in_unit(a, k, d) {
            let w = choose|w: int|
                0 <= w < 81 && w != k && same_unit(w, k) && a[w].solution == Some(d);
            assert(b[w].solution == Some(d));
            assert(solved_in_unit(b, k, d));
        }
        assert(b[k].candidates@ == a[k].candidates@);
    }
}

/// A block cache that mirrors one board mirrors every board with the same
/// solved digits.
pub proof fn lemma_blocks_ok_same_solutions(a: Seq<Cell>, b: Seq<Cell>, blocks: Seq<Block>)
    requires
        a.len() == 81,
        b.len() == 81,
        forall|k: int| 0 <= k < 81 ==> (#[trigger] b[k]).solution == a[k].solution,
        blocks_ok(a, blocks),
    ensures
        blocks_ok(b, blocks),
{
    assert forall|bi: int, d: i8|
        0 <= bi < 9 implies ((#[trigger] blocks[bi].solutions@.contains(d)) <==> solved_in_block(
        b,
        bi,
        d,
    )) by {
        if solved_in_block(b, bi, d) {
            let w = choose|w: int| 0 <= w < 81 && block_of(w) == bi && b[w].solution == Some(d);
            assert(a[w].solution == Some(d));
            assert(solved_in_block(a, bi, d));
        }
        if solved_in_block(a, bi, d) {
            let w = choose|w: int| 0 <= w < 81 && block_of(w) == bi && a[w].solution == Some(d);
            assert(b[w].solution == Some(d));
            assert(solved_in_block(b, bi, d));
        }
    }
}

/// A duplicated pre-filled digit within one unit violates the uniqueness
/// invariant of the solved cells, so the solver can only report failure on
/// such a board.
pub proof fn lemma_duplicate_prefill_invalid(b: Seq<Cell>, i: int, j: int, d: i8)
    requires
        0 <= i < 81,
        0 <= j < 81,
        i != j,
        same_unit(i, j),
        b[i].solution == Some(d),
        b[j].solution == Some(d),
    ensures
        !solved_distinct(b),
{
    assert(b[i].solution == b[j].solution);
}

impl Sudoku {
    /// The flat indices of the cells yet to be solved, in increasing
    /// row-major order.
    #[verifier::loop_isolation(false)]
    pub fn unsolved_cells(&self) -> (us: Vec<usize>)
        requires
            self.board@.len() == 81,
        ensures
            us_ok(self.board@, us@),
    {
        let mut us: Vec<usize> = Vec::new();
        let mut k: usize = 0;
        while k < 81
            invariant
                k <= 81,
                forall|j: int|
                    0 <= j < us@.len() ==> (#[trigger] us@[j]) < k && self.board@[us@[
                        j
                    ] as int].solution is None,
                forall|j1: int, j2: int|
                    0 <= j1 < j2 < us@.len() ==> (#[trigger] us@[j1]) < (#[trigger] us@[j2]),
                forall|t: int|
                    0 <= t < k && (#[trigger] self.board@[t]).solution is None ==> us@.contains(
                        t as usize,
                    ),
            decreases 81 - k,
        {
            if self.board[k].solution.is_none() {
                let ghost pre = us@;
                us.push(k);
                proof {
                    assert(us@ == pre.push(k as usize));
                    assert forall|t: int|
                        0 <= t < k + 1 && (#[trigger] self.board@[t]).solution is None
                        implies us@.contains(t as usize) by {
                        if t < k {
                            assert(pre.contains(t as usize));
                        } else {
                            assert(us@[pre.len() as int] == k as usize);
                            assert(us@.contains(k as usize));
                        }
                    }
                    assert forall|j1: int, j2: int|
                        0 <= j1 < j2 < us@.len() implies (#[trigger] us@[j1]) < (
                    #[trigger] us@[j2]) by {
                        if j2 < pre.len() {
                        } else {
                            assert(us@[j2] == k as usize);
                            assert(us@[j1] == pre[j1]);
                        }
                    }
                }
            }
            k += 1;
        }
        us
    }

    /// Whether `candidate` may be tried at `row:col`: it must differ from
    /// the tentative candidate of every unsolved cell before `row:col` in
    /// row-major order that shares a row, column or block with it.
    #[verifier::loop_isolation(false)]
    pub fn can_choose_candidate(&self, row: usize, col: usize, candidate: i8) -> (r: bool)
        requires
            self.board@.len() == 81,
            row < 9,
            col < 9,
        ensures
            r == !tentative_conflict(self.board@, flat(row as int, col as int), candidate),
    {
        proof {
            lemma_flat_inverse(row as int, col as int);
        }
        let k = row * 9 + col;
        let mut j: usize = 0;
        while j < k
            invariant
                j <= k,
                k as int == flat(row as int, col as int),
                forall|t: int|
                    0 <= t < j ==> !(same_unit(t, k as int) && (#[trigger] self.board@[
                        t
                    ]).solution is None && self.board@[t].candidate == Some(candidate)),
            decreases k - j,
        {
            if cells_share_unit(j, k) {
                if self.board[j].solution.is_none() {
                    if let Some(c) = self.board[j].candidate {
                        if c == candidate {
                            assert(tentative_conflict(
                                self.board@,
                                flat(row as int, col as int),
                                candidate,
                            )) by {
                                assert(self.board@[j as int].solution is None
                                    && self.board@[j as int].candidate == Some(candidate));
                            }
                            return false;
                        }
                    }
                }
            }
            j += 1;
        }
        true
    }

    /// Rewrites the tentative search fields of cell `k`, keeping its
    /// solution and candidate list.
    fn set_search_state(&mut self, k: usize, cand: Option<i8>, idx: Option<usize>)
        requires
            old(self).board@.len() == 81,
            k < 81,
        ensures
            final(self).board@.len() == 81,
            final(self).blocks@ == old(self).blocks@,
            forall|t: int| 0 <= t < 81 && t != k ==> #[trigger] final(self).board@[t]
                == old(self).board@[t],
            final(self).board@[k as int].solution == old(self).board@[k as int].solution,
            final(self).board@[k as int].candidates@ == old(self).board@[k as int].candidates@,
            final(self).board@[k as int].candidate == cand,
            final(self).board@[k as int].candidate_idx == idx,
    {
        let c = &self.board[k];
        let newc = Cell {
            solution: c.solution,
            candidates: copy_digits(&c.candidates),
            candidate: cand,
            candidate_idx: idx,
        };
        self.board.set(k, newc);
    }

    /// Depth-first backtracking from position `ci` of the unsolved-cell
    /// list: tries the remaining candidates of the current cell in list
    /// order and undoes a tentative choice whenever the deeper search
    /// reports failure. Solutions and candidate lists are never touched;
    /// on failure the board is restored exactly.
    #[verifier::loop_isolation(false)]
    #[verifier::rlimit(100)]
    fn search(&mut self, us: &Vec<usize>, ci: usize) -> (ok: bool)
        requires
            old(self).wf(),
            us_ok(old(self).board@, us@),
            ci <= us@.len(),
            chosen_ok(old(self).board@, us@, ci as int),
            cleared_from(old(self).board@, us@, ci as int),
            candidates_exact(old(self).board@),
        ensures
            final(self).wf(),
            same_skeleton(old(self).board@, final(self).board@),
            final(self).blocks@ == old(self).blocks@,
            us_ok(final(self).board@, us@),
            ok ==> chosen_ok(final(self).board@, us@, us@.len() as int),
            !ok ==> forall|t: int|
                0 <= t < 81 ==> cell_same(#[trigger] final(self).board@[t], old(self).board@[t]),
            !ok ==> forall|w: Seq<i8>|
                #![trigger valid_completion(old(self).board@, w)]
                valid_completion(old(self).board@, w) ==> !agrees(
                    old(self).board@,
                    us@,
                    ci as int,
                    w,
                ),
        decreases us@.len() - ci,
    {
        if ci == us.len() {
            return true;
        }
        let k = us[ci];
        assert(self.board@[k as int].solution is None);
        let n = self.board[k].candidates.len();
        let mut cand_idx: usize = 0;
        while cand_idx < n
            invariant
                cand_idx <= n,
                ci < us@.len(),
                k == us@[ci as int],
                k < 81,
                n == self.board@[k as int].candidates@.len(),
                self.wf(),
                same_skeleton(old(self).board@, self.board@),
                self.blocks@ == old(self).blocks@,
                us_ok(self.board@, us@),
                chosen_ok(self.board@, us@, ci as int),
                cleared_from(self.board@, us@, ci as int + 1),
                forall|t: int|
                    0 <= t < 81 && t != k ==> cell_same(
                        #[trigger] self.board@[t],
                        old(self).board@[t],
                    ),
                forall|w: Seq<i8>|
                    #![trigger valid_completion(old(self).board@, w)]
                    valid_completion(old(self).board@, w) && agrees(
                        old(self).board@,
                        us@,
                        ci as int,
                        w,
                    ) ==> !old(self).board@[k as int].candidates@.take(
                        cand_idx as int,
                    ).contains(w[k as int]),
            decreases n - cand_idx,
        {
            let d = self.board[k].candidates[cand_idx];
            proof {
                assert(self.board@[k as int].candidates@.contains(d));
                lemma_flat_decompose(k as int);
            }
            let row = k / 9;
            let col = k % 9;
            let feasible = self.can_choose_candidate(row, col, d);
            if feasible {
                let ghost bprev = self.board@;
                self.set_search_state(k, Some(d), Some(cand_idx + 1));
                let ghost bcall = self.board@;
                proof {
                    assert(k as int == flat(row as int, col as int));
                    assert forall|t: int| 0 <= t < 81 implies cell_ok(
                        #[trigger] self.board@[t],
                    ) by {
                        assert(cell_ok(bprev[t]));
                    }
                    lemma_blocks_ok_same_solutions(bprev, bcall, self.blocks@);
                    assert forall|t: int|
                        0 <= t < 81 && (#[trigger] bcall[t]).solution is None
                        implies us@.contains(t as usize) by {
                        assert(bprev[t].solution is None);
                    }
                    assert(us_ok(bcall, us@));
                    assert forall|j1: int, j2: int|
                        0 <= j1 < j2 < ci + 1 && same_unit(us@[j1] as int, us@[j2] as int)
                        implies #[trigger] bcall[us@[j1] as int].candidate != #[trigger] bcall[us@[
                        j2
                    ] as int].candidate by {
                        if j2 == ci {
                            assert(us@[j1] < us@[ci as int]);
                            let t = us@[j1] as int;
                            assert(bprev[t].solution is None);
                            assert(bprev[t].candidate is Some);
                            assert(!(same_unit(t, k as int) && bprev[t].solution is None
                                && bprev[t].candidate == Some(d)));
                            assert(bcall[t].candidate == bprev[t].candidate);
                        }
                    }
                    assert(chosen_ok(bcall, us@, ci as int + 1));
                    assert(cleared_from(bcall, us@, ci as int + 1));
                    assert forall|t: int|
                        0 <= t < 81 implies (#[trigger] bcall[t]).solution == old(
                        self,
                    ).board@[t].solution && bcall[t].candidates@ == old(self).board@[
                        t
                    ].candidates@ by {
                        if t != k as int {
                            assert(bcall[t] == bprev[t]);
                            assert(cell_same(bprev[t], old(self).board@[t]));
                        }
                    }
                    lemma_exact_same_skeleton(old(self).board@, bcall);
                }
                let deeper = self.search(us, ci + 1);
                if deeper {
                    proof {
                        assert(same_skeleton(old(self).board@, self.board@));
                    }
                    return true;
                }
                proof {
                    assert forall|t: int|
                        0 <= t < 81 && t != k implies cell_same(
                        #[trigger] self.board@[t],
                        old(self).board@[t],
                    ) by {
                        assert(cell_same(self.board@[t], bcall[t]));
                        assert(bcall[t] == bprev[t]);
                        assert(cell_same(bprev[t], old(self).board@[t]));
                    }
                    assert forall|j: int|
                        0 <= j < ci implies (#[trigger] self.board@[us@[j] as int].candidate)
                        is Some && self.board@[us@[j] as int].candidates@.contains(self.board@[us@[
                        j
                    ] as int].candidate->0) by {
                        assert(cell_same(self.board@[us@[j] as int], bcall[us@[j] as int]));
                    }
                    assert forall|j1: int, j2: int|
                        0 <= j1 < j2 < ci && same_unit(us@[j1] as int, us@[j2] as int)
                        implies #[trigger] self.board@[us@[j1] as int].candidate
                        != #[trigger] self.board@[us@[j2] as int].candidate by {
                        assert(cell_same(self.board@[us@[j1] as int], bcall[us@[j1] as int]));
                        assert(cell_same(self.board@[us@[j2] as int], bcall[us@[j2] as int]));
                        assert(bcall[us@[j1] as int].candidate != bcall[us@[j2] as int].candidate);
                    }
                    assert(chosen_ok(self.board@, us@, ci as int));
                    assert forall|j: int|
                        ci + 1 <= j < us@.len() implies (#[trigger] self.board@[us@[
                        j
                    ] as int].candidate) is None && self.board@[us@[j] as int].candidate_idx
                        is None by {
                        assert(cell_same(self.board@[us@[j] as int], bcall[us@[j] as int]));
                        assert(cleared_from(bcall, us@, ci as int + 1));
                    }
                    assert(cleared_from(self.board@, us@, ci as int + 1));
                    let tk = old(self).board@[k as int].candidates@;
                    assert(tk[cand_idx as int] == d);
                    assert(tk.take(cand_idx as int + 1) =~= tk.take(cand_idx as int).push(d));
                    assert forall|w: Seq<i8>|
                        #![trigger valid_completion(old(self).board@, w)]
                        valid_completion(old(self).board@, w) && agrees(
                            old(self).board@,
                            us@,
                            ci as int,
                            w,
                        ) implies !tk.take(cand_idx as int + 1).contains(w[k as int]) by {
                        if w[k as int] == d {
                            lemma_completion_same_solutions(old(self).board@, bcall, w);
                            assert forall|j: int|
                                0 <= j < ci + 1 implies w[(#[trigger] us@[j]) as int] == bcall[us@[
                                j
                            ] as int].candidate->0 by {
                                if j < ci {
                                    assert(us@[j] < us@[ci as int]);
                                    assert(bcall[us@[j] as int] == bprev[us@[j] as int]);
                                    assert(cell_same(
                                        bprev[us@[j] as int],
                                        old(self).board@[us@[j] as int],
                                    ));
                                } else {
                                    assert(bcall[k as int].candidate == Some(d));
                                }
                            }
                            assert(agrees(bcall, us@, ci as int + 1, w));
                            assert(false);
                        }
                    }
                }
            } else {
                proof {
                    let tk = old(self).board@[k as int].candidates@;
                    assert(tk[cand_idx as int] == d);
                    assert(tk.take(cand_idx as int + 1) =~= tk.take(cand_idx as int).push(d));
                    let j = choose|j: int|
                        0 <= j < k as int && same_unit(j, k as int) && self.board@[j].solution
                            is None && self.board@[j].candidate == Some(d);
                    assert(cell_same(self.board@[j], old(self).board@[j]));
                    assert(us@.contains(j as usize));
                    let a = choose|a: int| 0 <= a < us@.len() && us@[a] == j as usize;
                    assert(a < ci) by {
                        if a > ci {
                            assert(us@[ci as int] < us@[a]);
                        }
                    }
                    assert forall|w: Seq<i8>|
                        #![trigger valid_completion(old(self).board@, w)]
                        valid_completion(old(self).board@, w) && agrees(
                            old(self).board@,
                            us@,
                            ci as int,
                            w,
                        ) implies !tk.take(cand_idx as int + 1).contains(w[k as int]) by {
                        if w[k as int] == d {
                            assert(w[(us@[a]) as int] == old(self).board@[us@[
                                a
                            ] as int].candidate->0);
                            assert(old(self).board@[j].candidate == Some(d));
                            assert(w[j] == d);
                            assert(w[j] != w[k as int]);
                            assert(false);
                        }
                    }
                }
            }
            cand_idx += 1;
        }
        proof {
            let tk = old(self).board@[k as int].candidates@;
            assert(tk.len() == n);
            assert forall|w: Seq<i8>|
                #![trigger valid_completion(old(self).board@, w)]
                valid_completion(old(self).board@, w) implies !agrees(
                old(self).board@,
                us@,
                ci as int,
                w,
            ) by {
                if agrees(old(self).board@, us@, ci as int, w) {
                    assert(!solved_in_unit(old(self).board@, k as int, w[k as int])) by {
                        if solved_in_unit(old(self).board@, k as int, w[k as int]) {
                            let j = choose|j: int|
                                0 <= j < 81 && j != k as int && same_unit(j, k as int) && old(
                                    self,
                                ).board@[j].solution == Some(w[k as int]);
                            assert(w[j] == w[k as int]);
                        }
                    }
                    assert(old(self).board@[k as int].solution is None);
                    assert(tk.contains(w[k as int]));
                    assert(tk.take(n as int) =~= tk);
                    assert(false);
                }
            }
        }
        let ghost bexh = self.board@;
        self.set_search_state(k, None, None);
        proof {
            assert forall|t: int| 0 <= t < 81 implies cell_same(
                #[trigger] self.board@[t],
                old(self).board@[t],
            ) by {
                if t == k as int {
                    assert(old(self).board@[t].candidate is None);
                    assert(old(self).board@[t].candidate_idx is None);
                } else {
                    assert(self.board@[t] == bexh[t]);
                }
            }
            assert forall|t: int| 0 <= t < 81 implies cell_ok(#[trigger] self.board@[t]) by {
                assert(cell_ok(old(self).board@[t]));
                assert(cell_same(self.board@[t], old(self).board@[t]));
            }
            lemma_blocks_ok_same_solutions(bexh, self.board@, self.blocks@);
            assert forall|t: int|
                0 <= t < 81 && (#[trigger] self.board@[t]).solution is None
                implies us@.contains(t as usize) by {
                assert(bexh[t].solution is None);
            }
            assert(us_ok(self.board@, us@));
        }
        false
    }
}

impl Sudoku {
    /// Turns the tentative candidate of every unsolved cell into its
    /// permanent solution and clears its search state.
    #[verifier::loop_isolation(false)]
    fn use_final_candidates(&mut self)
        requires
            old(self).board@.len() == 81,
            board_ok(old(self).board@),
            forall|t: int|
                0 <= t < 81 && (#[trigger] old(self).board@[t]).solution is None ==> old(
                    self,
                ).board@[t].candidate is Some && digit_ok(old(self).board@[t].candidate->0),
        ensures
            final(self).board@.len() == 81,
            board_ok(final(self).board@),
            final(self).blocks@ == old(self).blocks@,
            forall|t: int|
                0 <= t < 81 ==> (#[trigger] final(self).board@[t]).solution == (if old(
                    self,
                ).board@[t].solution is Some {
                    old(self).board@[t].solution
                } else {
                    old(self).board@[t].candidate
                }),
    {
        let mut t: usize = 0;
        while t < 81
            invariant
                t <= 81,
                self.board@.len() == 81,
                self.blocks@ == old(self).blocks@,
                forall|j: int| t <= j < 81 ==> #[trigger] self.board@[j] == old(self).board@[j],
                forall|j: int|
                    0 <= j < t ==> cell_ok(#[trigger] self.board@[j]) && self.board@[j].solution
                        == (if old(self).board@[j].solution is Some {
                        old(self).board@[j].solution
                    } else {
                        old(self).board@[j].candidate
                    }),
            decreases 81 - t,
        {
            if self.board[t].solution.is_none() {
                if let Some(d) = self.board[t].candidate {
                    let newc = Cell::solved(d);
                    self.board.set(t, newc);
                } else {
                    proof {
                        assert(false);
                    }
                }
            } else {
                proof {
                    assert(cell_ok(self.board@[t as int]));
                }
            }
            t += 1;
        }
    }

    /// Backtracking phase: lists the unsolved cells in row-major order,
    /// clears their search state, runs the depth-first search, and on
    /// success commits every tentative candidate and returns a copy of the
    /// solved board.
    #[verifier::loop_isolation(false)]
    #[verifier::rlimit(100)]
    pub fn guess_solutions(&mut self) -> (r: Option<Board>)
        requires
            old(self).wf(),
            solved_distinct(old(self).board@),
            candidates_consistent(old(self).board@),
            candidates_exact(old(self).board@),
        ensures
            r matches Some(b) ==> b@.len() == 81 && board_ok(b@) && complete(b@)
                && solved_distinct(b@) && preserves_solutions(old(self).board@, b@),
            r is None ==> forall|w: Seq<i8>|
                #![trigger valid_completion(old(self).board@, w)]
                !valid_completion(old(self).board@, w),
    {
        let ghost b0 = self.board@;
        let us = self.unsolved_cells();
        let mut j: usize = 0;
        while j < us.len()
            invariant
                j <= us@.len(),
                self.board@.len() == 81,
                self.blocks@ == old(self).blocks@,
                us_ok(b0, us@),
                forall|t: int|
                    0 <= t < 81 ==> (#[trigger] self.board@[t]).solution == b0[t].solution
                        && self.board@[t].candidates@ == b0[t].candidates@,
                board_ok(self.board@),
                forall|t: int|
                    0 <= t < j ==> (#[trigger] self.board@[us@[t] as int].candidate) is None
                        && self.board@[us@[t] as int].candidate_idx is None,
            decreases us@.len() - j,
        {
            let k = us[j];
            let ghost bpre = self.board@;
            self.set_search_state(k, None, None);
            proof {
                assert forall|t: int|
                    0 <= t < j + 1 implies (#[trigger] self.board@[us@[t] as int].candidate)
                    is None && self.board@[us@[t] as int].candidate_idx is None by {
                    if t < j {
                        assert(us@[t] < us@[j as int]);
                        assert(self.board@[us@[t] as int] == bpre[us@[t] as int]);
                    }
                }
                assert forall|t: int| 0 <= t < 81 implies cell_ok(#[trigger] self.board@[t]) by {
                    assert(cell_ok(bpre[t]));
                }
            }
            j += 1;
        }
        proof {
            lemma_blocks_ok_same_solutions(b0, self.board@, self.blocks@);
            assert forall|t: int|
                0 <= t < 81 && (#[trigger] self.board@[t]).solution is None
                implies us@.contains(t as usize) by {
                assert(b0[t].solution is None);
            }
            assert(us_ok(self.board@, us@));
            assert(cleared_from(self.board@, us@, 0));
            assert(chosen_ok(self.board@, us@, 0));
        }
        let ghost b_pre_search = self.board@;
        proof {
            lemma_exact_same_skeleton(b0, b_pre_search);
        }
        let found = self.search(&us, 0);
        if found {
            let ghost b1 = self.board@;
            proof {
                assert(same_skeleton(b0, b1));
                assert forall|t: int|
                    0 <= t < 81 && (#[trigger] b1[t]).solution is None implies b1[t].candidate
                    is Some && digit_ok(b1[t].candidate->0) by {
                    assert(us@.contains(t as usize));
                    let a = choose|a: int| 0 <= a < us@.len() && us@[a] == t as usize;
                    assert(b1[us@[a] as int].candidate is Some);
                    assert(b1[t].candidates@.contains(b1[t].candidate->0));
                    assert(cell_ok(b1[t]));
                }
            }
            self.use_final_candidates();
            proof {
                lemma_search_result_valid(b0, b1, self.board@, us@);
            }
            let out = clone_board(&self.board);
            proof {
                assert forall|t: int| 0 <= t < 81 implies (#[trigger] out@[t]).solution
                    == self.board@[t].solution && out@[t].candidates@
                    == self.board@[t].candidates@ by {
                    assert(cell_same(out@[t], self.board@[t]));
                }
                assert(complete(out@));
                assert forall|t: int| 0 <= t < 81 implies cell_ok(#[trigger] out@[t]) by {
                    assert(cell_same(out@[t], self.board@[t]));
                    assert(cell_ok(self.board@[t]));
                    assert(out@[t].candidate == self.board@[t].candidate);
                    assert(out@[t].candidate_idx == self.board@[t].candidate_idx);
                }
                assert(board_ok(out@));
                assert forall|i2: int, j2: int|
                    0 <= i2 < 81 && 0 <= j2 < 81 && i2 != j2 && same_unit(i2, j2) && out@[
                    i2
                ].solution is Some implies #[trigger] out@[i2].solution != #[trigger] out@[
                j2
                ].solution by {
                    assert(self.board@[i2].solution != self.board@[j2].solution);
                }
                assert(solved_distinct(out@));
                assert forall|t: int|
                    0 <= t < 81 && (#[trigger] b0[t]).solution is Some implies out@[t].solution
                    == b0[t].solution by {
                    assert(self.board@[t].solution == b0[t].solution);
                }
                assert(preserves_solutions(b0, out@));
            }
            Some(out)
        } else {
            proof {
                assert forall|w: Seq<i8>|
                    #![trigger valid_completion(b0, w)]
                    !valid_completion(b0, w) by {
                    if valid_completion(b0, w) {
                        lemma_completion_same_solutions(b0, b_pre_search, w);
                        assert(agrees(b_pre_search, us@, 0, w));
                    }
                }
            }
            None
        }
    }

    /// Solves the board: one propagation sweep, then backtracking. Returns
    /// a copy of the solved board, or `None` exactly when the pre-filled
    /// cells already clash or no completion of them exists. A returned
    /// board is complete, has pairwise-distinct digits in every row, column
    /// and block, and keeps every solved cell of the input.
    pub fn solve(&mut self) -> (r: Option<Board>)
        requires
            old(self).wf(),
        ensures
            r matches Some(b) ==> b@.len() == 81 && board_ok(b@) && complete(b@)
                && solved_distinct(b@) && preserves_solutions(old(self).board@, b@),
            !solved_distinct(old(self).board@) ==> r is None,
            (solved_distinct(old(self).board@) && exists|w: Seq<i8>|
                valid_completion(old(self).board@, w)) ==> r is Some,
            r is Some ==> exists|w: Seq<i8>| valid_completion(old(self).board@, w),
    {
        let valid = self.solved_cells_valid();
        if !valid {
            return None;
        }
        self.find_candidates();
        let ghost mid = self.board@;
        let r = self.guess_solutions();
        proof {
            if r is Some {
                assert forall|t: int|
                    0 <= t < 81 && (#[trigger] old(self).board@[t]).solution is Some
                    implies (r->0)@[t].solution == old(self).board@[t].solution by {
                    assert(mid[t].solution == old(self).board@[t].solution);
                    assert((r->0)@[t].solution == mid[t].solution);
                }
                let b = (r->0)@;
                let w = Seq::new(81, |t: int| b[t].solution->0);
                assert(valid_completion(old(self).board@, w)) by {
                    assert forall|t: int| 0 <= t < 81 implies digit_ok(#[trigger] w[t]) by {
                        assert(cell_ok(b[t]));
                        assert(b[t].solution is Some);
                    }
                    assert forall|i2: int, j2: int|
                        #![trigger w[i2], w[j2]]
                        0 <= i2 < 81 && 0 <= j2 < 81 && i2 != j2 && same_unit(i2, j2)
                        implies w[i2] != w[j2] by {
                        assert(b[i2].solution is Some && b[j2].solution is Some);
                        assert(b[i2].solution != b[j2].solution);
                    }
                    assert forall|t: int|
                        0 <= t < 81 && (#[trigger] old(self).board@[t]).solution is Some
                        implies w[t] == old(self).board@[t].solution->0 by {
                        assert(b[t].solution == old(self).board@[t].solution);
                    }
                }
            }
            if solved_distinct(old(self).board@) && exists|w: Seq<i8>|
                valid_completion(old(self).board@, w) {
                if r is None {
                    let w = choose|w: Seq<i8>| valid_completion(old(self).board@, w);
                    assert(valid_completion(mid, w));
                    assert(false);
                }
            }
        }
        r
    }
}

/// A fully searched board, once its tentative candidates are committed,
/// satisfies completeness, the uniqueness invariant, and preservation of
/// the solutions it started from.
proof fn lemma_search_result_valid(b0: Seq<Cell>, b1: Seq<Cell>, b2: Seq<Cell>, us: Seq<usize>)
    requires
        b0.len() == 81,
        b1.len() == 81,
        b2.len() == 81,
        solved_distinct(b0),
        candidates_consistent(b0),
        same_skeleton(b0, b1),
        us_ok(b1, us),
        chosen_ok(b1, us, us.len() as int),
        forall|t: int|
            0 <= t < 81 ==> (#[trigger] b2[t]).solution == (if b1[t].solution is Some {
                b1[t].solution
            } else {
                b1[t].candidate
            }),
    ensures
        complete(b2),
        solved_distinct(b2),
        preserves_solutions(b0, b2),
{
    assert forall|t: int| 0 <= t < 81 implies (#[trigger] b2[t]).solution is Some by {
        if b1[t].solution is None {
            assert(us.contains(t as usize));
            let j = choose|j: int| 0 <= j < us.len() && us[j] == t as usize;
            assert(b1[us[j] as int].candidate is Some);
        }
    }
    assert forall|i: int, j: int|
        0 <= i < 81 && 0 <= j < 81 && i != j && same_unit(i, j) && b2[i].solution is Some
        implies #[trigger] b2[i].solution != #[trigger] b2[j].solution by {
        if b1[i].solution is Some && b1[j].solution is Some {
            assert(b0[i].solution == b1[i].solution && b0[j].solution == b1[j].solution);
        } else if b1[i].solution is Some && b1[j].solution is None {
            let dd = b2[j].solution->0;
            assert(us.contains(j as usize));
            let a = choose|a: int| 0 <= a < us.len() && us[a] == j as usize;
            assert(b1[j].candidates@.contains(dd));
            assert(b0[j].candidates@.contains(dd));
            if b2[i].solution == b2[j].solution {
                assert(b0[i].solution == Some(dd));
                assert(solved_in_unit(b0, j, dd));
            }
        } else if b1[i].solution is None && b1[j].solution is Some {
            let dd = b2[i].solution->0;
            assert(us.contains(i as usize));
            let a = choose|a: int| 0 <= a < us.len() && us[a] == i as usize;
            assert(b1[i].candidates@.contains(dd));
            assert(b0[i].candidates@.contains(dd));
            if b2[i].solution == b2[j].solution {
                assert(b0[j].solution == b2[j].solution);
                assert(b0[j].solution == Some(dd));
                assert(solved_in_unit(b0, i, dd));
            }
        } else {
            assert(us.contains(i as usize));
            assert(us.contains(j as usize));
            let a = choose|a: int| 0 <= a < us.len() && us[a] == i as usize;
            let c = choose|c: int| 0 <= c < us.len() && us[c] == j as usize;
            assert(b1[i].candidate is Some && b1[j].candidate is Some);
            if a < c {
                assert(b1[us[a] as int].candidate != b1[us[c] as int].candidate);
            } else if c < a {
                assert(same_unit(us[c] as int, us[a] as int));
                assert(b1[us[c] as int].candidate != b1[us[a] as int].candidate);
            } else {
                assert(i == j);
            }
        }
    }
    assert forall|t: int|
        0 <= t < 81 && (#[trigger] b0[t]).solution is Some implies b2[t].solution
        == b0[t].solution by {
        assert(b1[t].solution == b0[t].solution);
    }
}

} // verus!
