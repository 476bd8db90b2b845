//! The search engine: depth-first backtracking over boards, branching on the
//! unsolved cell with the fewest candidates.

use vstd::prelude::*;
use vstd::string::*;
use crate::board::{
    Board, board_wf, candidate_order, complete, consistent, full_board, is_solution, refines,
    solved, unsolved, lemma_candidate_order, lemma_full_board, lemma_refines_refl,
    lemma_refines_trans, lemma_refines_update,
};
use crate::coord::{index_of, is_key, key_of, lemma_index_key, lemma_key_index};
use crate::digits::{digit_text, is_candidates, is_digit, within};
use crate::field::SudokuField;
use crate::propagate::{
    given, lemma_consistent_settled, lemma_given, lemma_given_consistent, lemma_given_unsolved,
    lemma_propagation,
};

verus! {

/// The first solved grid that the search comes to from the board `b`: `b`
/// itself where it is complete; else what the digits of the first cell in the
/// order of the search lead to, taken in ascending order.
pub open spec fn found(b: Board) -> Option<Board>
    decreases unsolved(b), 1int, 0int,
{
    if candidate_order(b).len() == 0 {
        Some(b)
    } else {
        found_from(b, candidate_order(b)[0], 0)
    }
}

/// The first solved grid that the search comes to when it fixes cell `c` of
/// `b` to one of its digits, trying them from position `j` on.
pub open spec fn found_from(b: Board, c: int, j: int) -> Option<Board>
    decreases unsolved(b), 0int, b[c].len() - j,
{
    if board_wf(b) && 0 <= c < 81 && b[c].len() >= 2 && 0 <= j < b[c].len() {
        match given(b, c, b[c][j]) {
            Some(after) => {
                proof {
                    lemma_given_unsolved(b, c, j);
                }
                match found(after) {
                    Some(grid) => Some(grid),
                    None => found_from(b, c, j + 1),
                }
            },
            None => found_from(b, c, j + 1),
        }
    } else {
        None
    }
}

/// The model of a board, where there is one.
pub open spec fn view_of(res: Option<SudokuField>) -> Option<Board> {
    match res {
        Some(grid) => Some(grid@),
        None => None,
    }
}

/// What the search owes from the board `b`: a complete board below `b`,
/// consistent where `b` is, so that from a consistent board it is a solved
/// grid; and nothing only where no solved grid lies below `b`.
pub open spec fn search_outcome(b: Board, res: Option<Board>) -> bool {
    match res {
        Some(grid) => {
            &&& board_wf(grid)
            &&& complete(grid)
            &&& refines(grid, b)
            &&& consistent(b) ==> consistent(grid)
        },
        None => forall|x: Board| is_solution(x) ==> !#[trigger] refines(x, b),
    }
}

/// No solved grid below `b` has one of the first `j` digits of `values` at cell `c`.
spec fn ruled_out(b: Board, c: int, values: Seq<char>, j: int) -> bool {
    forall|x: Board, t: int|
        is_solution(x) && #[trigger] refines(x, b) && 0 <= t < j ==> x[c][0] != #[trigger] values[t]
}

/// A solved grid below `b` that has `d` at cell `c` lies below `b` with `c` fixed to `d`.
proof fn lemma_solution_below_start(x: Board, b: Board, c: int, d: char)
    requires
        is_solution(x),
        refines(x, b),
        0 <= c < 81,
        x[c][0] == d,
    ensures
        refines(x, b.update(c, seq![d])),
{
    let start = b.update(c, seq![d]);
    assert(solved(x, c));
    assert(x[c] =~= seq![d]);
    assert forall|i: int| 0 <= i < x.len() implies within(#[trigger] x[i], start[i]) by {
        if i != c {
            assert(within(x[i], b[i]));
        }
    }
}

/// Where fixing `c` to its `j`-th digit fails, or the board it leaves has no
/// solved grid below it, no solved grid below `b` has that digit at `c`.
proof fn lemma_branch_dead(b: Board, c: int, j: int)
    requires
        board_wf(b),
        0 <= c < 81,
        0 <= j < b[c].len(),
        ruled_out(b, c, b[c], j),
        given(b, c, b[c][j]) matches Some(after) ==> forall|x: Board|
            is_solution(x) ==> !#[trigger] refines(x, after),
    ensures
        ruled_out(b, c, b[c], j + 1),
{
    let d = b[c][j];
    let start = b.update(c, seq![d]);
    lemma_propagation(start, c);
    assert(b[c].contains(d));
    assert forall|x: Board, t: int|
        is_solution(x) && #[trigger] refines(x, b) && 0 <= t < j + 1 implies x[c][0]
        != #[trigger] b[c][t] by {
        if t == j && x[c][0] == d {
            lemma_solution_below_start(x, b, c, d);
            lemma_consistent_settled(x, start, c);
            match given(b, c, d) {
                Some(after) => {
                    assert(refines(x, after));
                },
                None => {},
            }
            assert(false);
        }
    }
}

/// What a grid found below the board left by a fix is to the board before.
proof fn lemma_branch_found(b: Board, c: int, j: int, grid: Board)
    requires
        board_wf(b),
        0 <= c < 81,
        0 <= j < b[c].len(),
        given(b, c, b[c][j]) is Some,
        search_outcome(given(b, c, b[c][j])->0, Some(grid)),
    ensures
        search_outcome(b, Some(grid)),
{
    let d = b[c][j];
    let start = b.update(c, seq![d]);
    let after = given(b, c, d)->0;
    lemma_given(b, c, d);
    assert(b[c].contains(d));
    assert(within(seq![d], b[c])) by {
        assert forall|e: char| #[trigger] seq![d].contains(e) implies b[c].contains(e) by {
            let k = choose|k: int| 0 <= k < seq![d].len() && seq![d][k] == e;
        }
    }
    lemma_refines_update(b, c, seq![d]);
    lemma_refines_trans(after, start, b);
    lemma_refines_trans(grid, after, b);
    if consistent(b) {
        lemma_given_consistent(b, c, d);
    }
}

/// Where every candidate of a cell is ruled out, no solved grid lies below.
proof fn lemma_exhausted(b: Board, c: int)
    requires
        board_wf(b),
        0 <= c < 81,
        ruled_out(b, c, b[c], b[c].len() as int),
    ensures
        forall|x: Board| is_solution(x) ==> !#[trigger] refines(x, b),
{
    assert forall|x: Board| is_solution(x) implies !#[trigger] refines(x, b) by {
        if refines(x, b) {
            assert(solved(x, c));
            assert(within(x[c], b[c]));
            assert(x[c].contains(x[c][0]));
            let t = choose|t: int| 0 <= t < b[c].len() && b[c][t] == x[c][0];
            assert(x[c][0] != b[c][t]);
        }
    }
}

/// What the search finds is what it owes: a complete board below the start
/// that is a solved grid where the start is consistent, and nothing only where
/// no solved grid lies below the start.
pub proof fn lemma_found(b: Board)
    requires
        board_wf(b),
    ensures
        search_outcome(b, found(b)),
    decreases unsolved(b), 1int, 0int,
{
    lemma_candidate_order(b);
    lemma_refines_refl(b);
    if candidate_order(b).len() > 0 {
        let c = candidate_order(b)[0];
        lemma_found_from(b, c, 0);
    }
}

/// The same of the search that fixes cell `c`, from position `j` of its
/// digits on, where no solved grid below `b` has an earlier digit at `c`.
proof fn lemma_found_from(b: Board, c: int, j: int)
    requires
        board_wf(b),
        0 <= c < 81,
        b[c].len() >= 2,
        0 <= j <= b[c].len(),
        ruled_out(b, c, b[c], j),
    ensures
        search_outcome(b, found_from(b, c, j)),
    decreases unsolved(b), 0int, b[c].len() - j,
{
    if j == b[c].len() {
        lemma_exhausted(b, c);
    } else {
        let d = b[c][j];
        match given(b, c, d) {
            Some(after) => {
                lemma_given_unsolved(b, c, j);
                lemma_given(b, c, d);
                lemma_found(after);
                match found(after) {
                    Some(grid) => {
                        lemma_branch_found(b, c, j, grid);
                    },
                    None => {
                        lemma_branch_dead(b, c, j);
                        lemma_found_from(b, c, j + 1);
                    },
                }
            },
            None => {
                lemma_branch_dead(b, c, j);
                lemma_found_from(b, c, j + 1);
            },
        }
    }
}

/// Looks for a solved grid below `field`: takes the unsolved cell with the
/// fewest candidates, tries its digits in ascending order on a copy of the
/// board, and goes on from each copy that propagation leaves standing.  The
/// first grid found is returned; from a consistent board there is none exactly
/// when no solved grid lies below it.  Every step down solves at least one
/// more cell, so the search is never more than 81 steps deep.
pub fn search(field: &SudokuField) -> (res: Option<SudokuField>)
    requires
        field.wf(),
    ensures
        res matches Some(grid) ==> grid.wf(),
        view_of(res) == found(field@),
        search_outcome(field@, view_of(res)),
    decreases unsolved(field@),
{
    proof {
        lemma_found(field@);
        lemma_candidate_order(field@);
    }
    let candidates = field.candidates();
    if candidates.len() == 0 {
        return Some(field.clone());
    }
    let (key, cell) = candidates[0];
    let ghost c = candidate_order(field@)[0];
    let values = cell.values.as_str();
    let n = values.unicode_len();
    proof {
        lemma_key_index(c);
        assert(values@ == field@[c]);
        assert(is_candidates(values@));
    }
    let mut j: usize = 0;
    while j < n
        invariant
            j <= n,
            n == values@.len(),
            n >= 2,
            field.wf(),
            0 <= c < 81,
            values@ == field@[c],
            key@ == key_of(c),
            is_key(key@),
            index_of(key@) == c,
            found(field@) == found_from(field@, c, j as int),
            search_outcome(field@, found(field@)),
        decreases n - j,
    {
        let digit = values.substring_char(j, j + 1);
        let ghost d = values@[j as int];
        proof {
            assert(digit@ =~= seq![d]);
            assert(is_digit(d));
            assert(is_candidates(digit@));
            assert(digit@[0] == d);
        }
        let mut attempt = field.clone();
        match attempt.assign(key.as_str(), digit) {
            Some(_) => {
                proof {
                    lemma_given_unsolved(field@, c, j as int);
                }
                match search(&attempt) {
                    Some(grid) => {
                        return Some(grid);
                    },
                    None => {},
                }
            },
            None => {},
        }
        j += 1;
    }
    None
}

/// The cell and the digit of each assignment.
pub open spec fn givens_of(assignments: Seq<(String, char)>) -> Seq<(int, char)> {
    Seq::new(assignments.len(), |j: int| (index_of(assignments[j].0@), assignments[j].1))
}

/// The board after the given digits have been fixed one after the other on
/// the full board, where none of them ends in a contradiction.
pub open spec fn after_givens(givens: Seq<(int, char)>) -> Option<Board>
    decreases givens.len(),
{
    if givens.len() == 0 {
        Some(full_board())
    } else {
        match after_givens(givens.drop_last()) {
            None => None,
            Some(b) => given(b, givens.last().0, givens.last().1),
        }
    }
}

/// The first solved grid that the search comes to from the board that the
/// givens leave.
pub open spec fn solution(givens: Seq<(int, char)>) -> Option<Board> {
    match after_givens(givens) {
        None => None,
        Some(b) => found(b),
    }
}

/// What solving owes for the given digits: nothing where fixing them ends in
/// a contradiction; else a solved grid below the board they leave, and
/// nothing only where no solved grid lies below it.
pub open spec fn solve_outcome(givens: Seq<(int, char)>, res: Option<Board>) -> bool {
    match after_givens(givens) {
        None => res is None,
        Some(b) => match res {
            Some(grid) => is_solution(grid) && refines(grid, b),
            None => forall|x: Board| is_solution(x) ==> !#[trigger] refines(x, b),
        },
    }
}

/// Once fixing the givens has failed, more givens do not mend it.
pub proof fn lemma_after_givens_failed(givens: Seq<(int, char)>, k: int)
    requires
        0 <= k <= givens.len(),
        after_givens(givens.take(k)) is None,
    ensures
        after_givens(givens) is None,
    decreases givens.len() - k,
{
    if k < givens.len() {
        assert(givens.take(k + 1).drop_last() =~= givens.take(k));
        lemma_after_givens_failed(givens, k + 1);
    } else {
        assert(givens.take(k) =~= givens);
    }
}

/// The board that givens leave is whole and consistent.
pub proof fn lemma_after_givens(givens: Seq<(int, char)>)
    requires
        forall|j: int| 0 <= j < givens.len() ==> 0 <= (#[trigger] givens[j]).0 < 81,
    ensures
        after_givens(givens) matches Some(b) ==> board_wf(b) && consistent(b),
    decreases givens.len(),
{
    if givens.len() == 0 {
        lemma_full_board();
    } else {
        lemma_after_givens(givens.drop_last());
        match after_givens(givens.drop_last()) {
            None => {},
            Some(b) => {
                if given(b, givens.last().0, givens.last().1) is Some {
                    lemma_given_consistent(b, givens.last().0, givens.last().1);
                    lemma_given(b, givens.last().0, givens.last().1);
                }
            },
        }
    }
}

/// What solving gives is what it owes.
pub proof fn lemma_solution(givens: Seq<(int, char)>)
    requires
        forall|j: int| 0 <= j < givens.len() ==> 0 <= (#[trigger] givens[j]).0 < 81,
    ensures
        solve_outcome(givens, solution(givens)),
        solution(givens) matches Some(grid) ==> is_solution(grid),
{
    lemma_after_givens(givens);
    match after_givens(givens) {
        Some(b) => {
            lemma_found(b);
        },
        None => {},
    }
}

/// Solves the puzzle with the given digits: fixes each on a fresh board, in
/// the order given, and searches from the board that is left.  There is no
/// solution as soon as a given contradicts the ones before it, be it a digit
/// that is no candidate of its cell any more or one whose propagation fails.
pub fn solve(assignments: &Vec<(String, char)>) -> (res: Option<SudokuField>)
    requires
        forall|j: int|
            0 <= j < assignments@.len() ==> is_key((#[trigger] assignments@[j]).0@) && is_digit(
                assignments@[j].1,
            ),
    ensures
        res matches Some(grid) ==> grid.wf(),
        view_of(res) == solution(givens_of(assignments@)),
        solve_outcome(givens_of(assignments@), view_of(res)),
{
    let ghost givens = givens_of(assignments@);
    proof {
        assert forall|j: int| 0 <= j < givens.len() implies 0 <= (#[trigger] givens[j]).0 < 81 by {
            lemma_index_key(assignments@[j].0@);
        }
        lemma_solution(givens);
        assert(givens.take(0) =~= Seq::<(int, char)>::empty());
    }
    let mut field = SudokuField::new();
    let n = assignments.len();
    let mut j: usize = 0;
    while j < n
        invariant
            j <= n,
            n == assignments@.len(),
            givens == givens_of(assignments@),
            forall|t: int|
                0 <= t < assignments@.len() ==> is_key((#[trigger] assignments@[t]).0@)
                    && is_digit(assignments@[t].1),
            field.wf(),
            after_givens(givens.take(j as int)) == Some(field@),
            solve_outcome(givens, solution(givens)),
        decreases n - j,
    {
        let ghost d = assignments@[j as int].1;
        let fixed = field.assign(assignments[j].0.as_str(), digit_text(assignments[j].1));
        proof {
            assert(seq![d][0] == d);
            assert(givens.take(j + 1).drop_last() =~= givens.take(j as int));
            assert(givens.take(j + 1).last() == (index_of(assignments@[j as int].0@), d));
        }
        if fixed.is_none() {
            proof {
                lemma_after_givens_failed(givens, j + 1);
            }
            return None;
        }
        j += 1;
    }
    proof {
        assert(givens.take(n as int) =~= givens);
    }
    search(&field)
}

} // verus!
