//! Cells of a Sudoku grid.
//!
//! A cell is either solved, in which case `solution` holds its digit and the
//! search fields are empty, or unsolved, in which case `candidates` holds the
//! digits not yet ruled out for it, `candidate` the digit a backtracking
//! search is currently trying, and `candidate_idx` the position after the
//! candidate tried last.

use vstd::prelude::*;
use crate::units::digit_ok;

verus! {

/// One of the 81 positions of a grid.
pub struct Cell {
    pub solution: Option<i8>,
    pub candidates: Vec<i8>,
    pub candidate: Option<i8>,
    pub candidate_idx: Option<usize>,
}

/// Structural validity of a cell: every candidate is a digit, and a solved
/// cell holds a digit and carries no candidate or search state.
pub open spec fn cell_ok(c: Cell) -> bool {
    &&& forall|d: i8| #[trigger] c.candidates@.contains(d) ==> digit_ok(d)
    &&& (c.solution matches Some(s) ==> digit_ok(s) && c.candidates@.len() == 0
        && c.candidate is None && c.candidate_idx is None)
}

/// Two cells hold the same data, comparing candidate lists as sequences.
pub open spec fn cell_same(a: Cell, b: Cell) -> bool {
    &&& a.solution == b.solution
    &&& a.candidate == b.candidate
    &&& a.candidate_idx == b.candidate_idx
    &&& a.candidates@ == b.candidates@
}

impl Cell {
    /// A solved cell holding `solution`, with no candidate state.
    pub fn solved(solution: i8) -> (c: Cell)
        requires
            digit_ok(solution),
        ensures
            c.solution == Some(solution),
            c.candidates@ == Seq::<i8>::empty(),
            c.candidate is None,
            c.candidate_idx is None,
            cell_ok(c),
    {
        Cell {
            solution: Some(solution),
            candidates: Vec::new(),
            candidate: None,
            candidate_idx: None,
        }
    }

    /// An unsolved cell with an empty candidate list and no search state.
    pub fn unsolved() -> (c: Cell)
        ensures
            c.solution is None,
            c.candidates@ == Seq::<i8>::empty(),
            c.candidate is None,
            c.candidate_idx is None,
            cell_ok(c),
    {
        Cell {
            solution: None,
            candidates: Vec::new(),
            candidate: None,
            candidate_idx: None,
        }
    }
}

/// The candidate list `s` with every occurrence of `d` removed, keeping the
/// relative order of the remaining digits.
pub open spec fn remove_digit(s: Seq<i8>, d: i8) -> Seq<i8>
    decreases s.len(),
{
    if s.len() == 0 {
        Seq::empty()
    } else if s.last() == d {
        remove_digit(s.drop_last(), d)
    } else {
        remove_digit(s.drop_last(), d).push(s.last())
    }
}

proof fn lemma_push_contains(q: Seq<i8>, e: i8, x: i8)
    ensures
        q.push(e).contains(x) <==> (q.contains(x) || e == x),
{
    if q.push(e).contains(x) {
        let i = choose|i: int| 0 <= i < q.push(e).len() && q.push(e)[i] == x;
        if i < q.len() {
            assert(q[i] == x);
        }
    }
    if q.contains(x) {
        let i = choose|i: int| 0 <= i < q.len() && q[i] == x;
        assert(q.push(e)[i] == x);
    }
    if e == x {
        assert(q.push(e)[q.len() as int] == x);
    }
}

/// Removal keeps exactly the digits different from the removed one.
pub proof fn lemma_remove_digit_contains(s: Seq<i8>, d: i8, x: i8)
    ensures
        remove_digit(s, d).contains(x) <==> (s.contains(x) && x != d),
    decreases s.len(),
{
    if s.len() == 0 {
    } else {
        let q = s.drop_last();
        lemma_remove_digit_contains(q, d, x);
        assert(s =~= q.push(s.last()));
        lemma_push_contains(q, s.last(), x);
        if s.last() != d {
            lemma_push_contains(remove_digit(q, d), s.last(), x);
        }
    }
}

/// Removing a digit that a candidate list does not hold leaves the list
/// unchanged: the propagation removal primitive is a no-op on absent digits.
pub proof fn lemma_remove_digit_absent(s: Seq<i8>, d: i8)
    requires
        !s.contains(d),
    ensures
        remove_digit(s, d) == s,
    decreases s.len(),
{
    if s.len() == 0 {
        assert(remove_digit(s, d) =~= s);
    } else {
        let q = s.drop_last();
        assert(s.last() != d) by {
            if s.last() == d {
                assert(s[s.len() - 1] == d);
            }
        }
        assert(!q.contains(d)) by {
            if q.contains(d) {
                let i = choose|i: int| 0 <= i < q.len() && q[i] == d;
                assert(s[i] == d);
            }
        }
        lemma_remove_digit_absent(q, d);
        assert(remove_digit(s, d) =~= s);
    }
}

/// A copy of `cell` whose candidate list no longer holds `digit`, with all
/// other fields kept. This is the single propagation removal primitive.
pub fn without_candidate(cell: &Cell, digit: i8) -> (r: Cell)
    ensures
        r.solution == cell.solution,
        r.candidate == cell.candidate,
        r.candidate_idx == cell.candidate_idx,
        r.candidates@ == remove_digit(cell.candidates@, digit),
{
    let mut kept: Vec<i8> = Vec::new();
    let mut i: usize = 0;
    while i < cell.candidates.len()
        invariant
            i <= cell.candidates@.len(),
            kept@ == remove_digit(cell.candidates@.take(i as int), digit),
        decreases cell.candidates@.len() - i,
    {
        let c = cell.candidates[i];
        proof {
            assert(cell.candidates@.take(i + 1).drop_last() =~= cell.candidates@.take(i as int));
            assert(cell.candidates@.take(i + 1).last() == c);
        }
        if c != digit {
            kept.push(c);
        }
        i += 1;
    }
    proof {
        assert(cell.candidates@.take(cell.candidates@.len() as int) =~= cell.candidates@);
    }
    Cell {
        solution: cell.solution,
        candidates: kept,
        candidate: cell.candidate,
        candidate_idx: cell.candidate_idx,
    }
}

} // verus!
