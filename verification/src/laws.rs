//! What holds of the engine as a whole.

use vstd::prelude::*;
use crate::board::{
    Board, board_wf, consistent, full_board, is_solution, pair_ok, refines, solved,
    lemma_full_board, lemma_refines_refl, lemma_refines_trans,
};
use crate::coord::{is_peer, unit_cell, lemma_unit_cell_is_peer, lemma_unit_cells_are_peers};
use crate::digits::{all_digits, is_digit, within, lemma_all_digits, lemma_single};
use crate::parse::{is_blank, parsed_upto, ParseError};
use crate::propagate::{
    assigned, given, greatest_consistent, lemma_consistent_settled, lemma_given,
    lemma_given_consistent, lemma_given_fails, lemma_propagation,
};
use crate::search::{
    after_givens, solution, lemma_after_givens, lemma_after_givens_failed, lemma_solution,
};

verus! {

/// Among more than `n` numbers below `n` two are equal.
proof fn lemma_pigeonhole(s: Seq<int>, n: int)
    requires
        0 <= n < s.len(),
        forall|j: int| 0 <= j < s.len() ==> 0 <= #[trigger] s[j] < n,
    ensures
        exists|a: int, b: int| 0 <= a < b < s.len() && #[trigger] s[a] == #[trigger] s[b],
    decreases n,
{
    let last = s[s.len() - 1];
    if n == 0 {
        assert(0 <= s[0] < 0);
    } else if exists|j: int| 0 <= j < s.len() - 1 && s[j] == last {
        let j = choose|j: int| 0 <= j < s.len() - 1 && s[j] == last;
        assert(s[j] == s[s.len() - 1]);
    } else {
        let t = Seq::new(
            (s.len() - 1) as nat,
            |j: int| if s[j] > last {
                s[j] - 1
            } else {
                s[j]
            },
        );
        assert forall|j: int| 0 <= j < t.len() implies 0 <= #[trigger] t[j] < n - 1 by {
            assert(0 <= s[j] < n);
            assert(s[j] != last);
        }
        lemma_pigeonhole(t, n - 1);
        let (a, b) = choose|a: int, b: int|
            0 <= a < b < t.len() && #[trigger] t[a] == #[trigger] t[b];
        assert(s[a] != last && s[b] != last);
        assert(s[a] == s[b]);
    }
}

/// In a consistent board two peers are not solved to the same digit.
pub proof fn lemma_peers_differ(b: Board, p: int, q: int)
    requires
        consistent(b),
        is_peer(p, q),
        solved(b, p),
        solved(b, q),
    ensures
        b[p] != b[q],
{
    assert(pair_ok(b, p, q));
    assert(b[q].contains(b[q][0]));
}

/// The number that stands for a digit other than `e`: 0 to 7.
spec fn rank_without(x: char, e: char) -> int {
    let v = x as int - '1' as int;
    if x > e {
        v - 1
    } else {
        v
    }
}

/// In a solved grid every unit holds nine different digits, and so every
/// digit from 1 to 9 exactly once.
pub proof fn lemma_solution_units(g: Board, i: int, u: int)
    requires
        is_solution(g),
        0 <= i < 81,
        0 <= u < 3,
    ensures
        forall|j: int|
            0 <= j < 9 ==> (#[trigger] g[unit_cell(i, u, j)]).len() == 1 && is_digit(
                g[unit_cell(i, u, j)][0],
            ),
        forall|j: int, k: int|
            0 <= j < 9 && 0 <= k < 9 && j != k ==> g[#[trigger] unit_cell(i, u, j)]
                != g[#[trigger] unit_cell(i, u, k)],
        forall|e: char|
            #![trigger is_digit(e)]
            is_digit(e) ==> exists|j: int|
                0 <= j < 9 && #[trigger] g[unit_cell(i, u, j)] == seq![e],
{
    assert forall|j: int| 0 <= j < 9 implies (#[trigger] g[unit_cell(i, u, j)]).len() == 1
        && is_digit(g[unit_cell(i, u, j)][0]) by {
        lemma_unit_cell_is_peer(i, u, j);
        assert(solved(g, unit_cell(i, u, j)));
    }
    assert forall|j: int, k: int| 0 <= j < 9 && 0 <= k < 9 && j != k implies g[#[trigger] unit_cell(
        i,
        u,
        j,
    )] != g[#[trigger] unit_cell(i, u, k)] by {
        lemma_unit_cells_are_peers(i, u, j, k);
        lemma_unit_cell_is_peer(i, u, j);
        lemma_unit_cell_is_peer(i, u, k);
        assert(solved(g, unit_cell(i, u, j)));
        assert(solved(g, unit_cell(i, u, k)));
        lemma_peers_differ(g, unit_cell(i, u, j), unit_cell(i, u, k));
    }
    assert forall|e: char| #![trigger is_digit(e)] is_digit(e) implies exists|j: int|
        0 <= j < 9 && #[trigger] g[unit_cell(i, u, j)] == seq![e] by {
        if !exists|j: int| 0 <= j < 9 && #[trigger] g[unit_cell(i, u, j)] == seq![e] {
            let s = Seq::new(9, |j: int| rank_without(g[unit_cell(i, u, j)][0], e));
            assert forall|j: int| 0 <= j < s.len() implies 0 <= #[trigger] s[j] < 8 by {
                let cell = g[unit_cell(i, u, j)];
                assert(cell.len() == 1 && is_digit(cell[0]));
                if cell[0] == e {
                    assert(cell =~= seq![e]);
                }
            }
            lemma_pigeonhole(s, 8);
            let (a, b) = choose|a: int, b: int|
                0 <= a < b < s.len() && #[trigger] s[a] == #[trigger] s[b];
            let x = g[unit_cell(i, u, a)];
            let y = g[unit_cell(i, u, b)];
            assert(x.len() == 1 && y.len() == 1);
            assert(x[0] != e) by {
                if x[0] == e {
                    assert(x =~= seq![e]);
                }
            }
            assert(y[0] != e) by {
                if y[0] == e {
                    assert(y =~= seq![e]);
                }
            }
            assert(x[0] == y[0]);
            assert(x =~= y);
            assert(false);
        }
    }
}

/// A solved grid below a solved grid is that grid.
pub proof fn lemma_solution_below_solution(x: Board, g: Board)
    requires
        board_wf(x),
        is_solution(g),
        refines(x, g),
    ensures
        x == g,
{
    assert forall|i: int| 0 <= i < 81 implies x[i] == g[i] by {
        assert(solved(g, i));
        assert(within(x[i], g[i]));
        assert forall|e: char| #[trigger] x[i].contains(e) implies e == g[i][0] by {
            let k = choose|k: int| 0 <= k < g[i].len() && g[i][k] == e;
        }
        lemma_single(x[i], g[i][0]);
        assert(g[i] =~= seq![g[i][0]]);
    }
    assert(x =~= g);
}

/// Givens taken from a solved grid leave a board above that grid, on which
/// every given cell holds its digit alone.
proof fn lemma_givens_of_solution(g: Board, givens: Seq<(int, char)>, k: int)
    requires
        is_solution(g),
        0 <= k <= givens.len(),
        forall|j: int|
            0 <= j < givens.len() ==> 0 <= (#[trigger] givens[j]).0 < 81 && g[givens[j].0]
                == seq![givens[j].1],
    ensures
        after_givens(givens.take(k)) is Some,
        board_wf(after_givens(givens.take(k))->0),
        consistent(after_givens(givens.take(k))->0),
        refines(g, after_givens(givens.take(k))->0),
        forall|j: int|
            0 <= j < k ==> after_givens(givens.take(k))->0[(#[trigger] givens[j]).0]
                == g[givens[j].0],
    decreases k,
{
    if k == 0 {
        lemma_full_board();
        lemma_all_digits();
        let full = full_board();
        assert(givens.take(0) =~= Seq::<(int, char)>::empty());
        assert forall|i: int| 0 <= i < g.len() implies within(#[trigger] g[i], full[i]) by {
            assert forall|e: char| #[trigger] g[i].contains(e) implies full[i].contains(e) by {
                let t = choose|t: int| 0 <= t < g[i].len() && g[i][t] == e;
                assert(is_digit(g[i][t]));
            }
        }
    } else {
        lemma_givens_of_solution(g, givens, k - 1);
        let b = after_givens(givens.take(k - 1))->0;
        let c = givens[k - 1].0;
        let d = givens[k - 1].1;
        let start = b.update(c, seq![d]);
        assert(givens.take(k).drop_last() =~= givens.take(k - 1));
        assert(givens.take(k).last() == givens[k - 1]);
        assert(refines(g, start)) by {
            assert forall|i: int| 0 <= i < g.len() implies within(#[trigger] g[i], start[i]) by {
                if i != c {
                    assert(within(g[i], b[i]));
                }
            }
        }
        assert(b[c].contains(d)) by {
            assert(within(g[c], b[c]));
            assert(g[c][0] == d);
            assert(g[c].contains(d));
        }
        lemma_propagation(start, c);
        lemma_consistent_settled(g, start, c);
        lemma_given(b, c, d);
        lemma_given_consistent(b, c, d);
        let a = given(b, c, d)->0;
        assert(after_givens(givens.take(k)) == Some(a));
        assert(refines(a, start));
        assert(refines(g, a));
        assert forall|j: int| 0 <= j < k implies a[(#[trigger] givens[j]).0] == g[givens[j].0] by {
            let cj = givens[j].0;
            let dj = givens[j].1;
            assert(within(a[cj], start[cj]));
            assert(start[cj] == seq![dj]);
            assert forall|e: char| #[trigger] a[cj].contains(e) implies e == dj by {
                let t = choose|t: int| 0 <= t < start[cj].len() && start[cj][t] == e;
            }
            lemma_single(a[cj], dj);
        }
    }
}

/// Whether one of the givens is for cell `i`.
pub open spec fn gives(givens: Seq<(int, char)>, i: int) -> bool {
    exists|j: int| 0 <= j < givens.len() && (#[trigger] givens[j]).0 == i
}

/// Solving is idempotent: where the givens are the digits of a solved grid,
/// one for every cell, the solution is that grid.
pub proof fn lemma_solved_grid_unchanged(g: Board, givens: Seq<(int, char)>)
    requires
        is_solution(g),
        forall|j: int|
            0 <= j < givens.len() ==> 0 <= (#[trigger] givens[j]).0 < 81 && g[givens[j].0]
                == seq![givens[j].1],
        forall|i: int| 0 <= i < 81 ==> #[trigger] gives(givens, i),
    ensures
        after_givens(givens) == Some(g),
        solution(givens) == Some(g),
{
    lemma_givens_of_solution(g, givens, givens.len() as int);
    assert(givens.take(givens.len() as int) =~= givens);
    let b = after_givens(givens)->0;
    assert forall|i: int| 0 <= i < 81 implies b[i] == g[i] by {
        assert(gives(givens, i));
        let j = choose|j: int| 0 <= j < givens.len() && (#[trigger] givens[j]).0 == i;
        assert(b[givens[j].0] == g[givens[j].0]);
    }
    assert(b =~= g);
    lemma_refines_refl(g);
    lemma_solution(givens);
    match solution(givens) {
        Some(grid) => {
            lemma_solution_below_solution(grid, g);
        },
        None => {
            assert(refines(g, g));
        },
    }
}

/// A cell that has been fixed to a digit cannot be fixed to another:
/// assigning it a second, different digit is a contradiction.
pub proof fn lemma_fixed_again(b: Board, c: int, d: char, e: char)
    requires
        b.len() == 81,
        0 <= c < 81,
        given(b, c, d) is Some,
        e != d,
    ensures
        given(given(b, c, d)->0, c, e) is None,
        assigned(given(b, c, d)->0, c, seq![e]) is None,
{
    let g = given(b, c, d)->0;
    lemma_given(b, c, d);
    if g[c].contains(e) {
        let k = choose|k: int| 0 <= k < g[c].len() && g[c][k] == e;
        assert(false);
    }
    assert(seq![e][0] == e);
}

/// The givens `k` and `m` put two different digits on one cell.
pub open spec fn conflict_at(givens: Seq<(int, char)>, k: int, m: int) -> bool {
    &&& 0 <= k < m < givens.len()
    &&& givens[k].0 == givens[m].0
    &&& givens[k].1 != givens[m].1
    &&& forall|j: int| 0 <= j < givens.len() ==> 0 <= (#[trigger] givens[j]).0 < 81
}

/// Once a given has put a digit on a cell, the cell holds that digit alone
/// on every board that later givens leave.
proof fn lemma_given_stays(givens: Seq<(int, char)>, k: int, n: int)
    requires
        0 <= k < n <= givens.len(),
        forall|j: int| 0 <= j < givens.len() ==> 0 <= (#[trigger] givens[j]).0 < 81,
    ensures
        after_givens(givens.take(n)) matches Some(b) ==> board_wf(b) && b[givens[k].0]
            == seq![givens[k].1],
    decreases n,
{
    let c = givens[k].0;
    let d = givens[k].1;
    assert(givens.take(n).drop_last() =~= givens.take(n - 1));
    assert(givens.take(n).last() == givens[n - 1]);
    if after_givens(givens.take(n)) is Some {
        let b = after_givens(givens.take(n - 1))->0;
        let after = after_givens(givens.take(n))->0;
        let earlier = givens.take(n - 1);
        assert forall|j: int| 0 <= j < earlier.len() implies 0 <= (#[trigger] earlier[j]).0
            < 81 by {
            assert(earlier[j] == givens[j]);
        }
        lemma_after_givens(givens.take(n - 1));
        lemma_given(b, givens[n - 1].0, givens[n - 1].1);
        if n > k + 1 {
            lemma_given_stays(givens, k, n - 1);
            assert(within(after[c], b[c]));
            assert forall|e: char| #[trigger] after[c].contains(e) implies e == d by {
                let t = choose|t: int| 0 <= t < b[c].len() && b[c][t] == e;
            }
            lemma_single(after[c], d);
        }
    }
}

/// Two different digits given to one cell are a contradiction, whatever
/// else is given: fixing the givens fails at the second of the two at the
/// latest, and there is no solution.
pub proof fn lemma_conflicting_givens(givens: Seq<(int, char)>, k: int, m: int)
    requires
        conflict_at(givens, k, m),
    ensures
        after_givens(givens.take(m + 1)) is None,
        after_givens(givens) is None,
        solution(givens) is None,
{
    let c = givens[k].0;
    lemma_given_stays(givens, k, m);
    assert(givens.take(m + 1).drop_last() =~= givens.take(m));
    assert(givens.take(m + 1).last() == givens[m]);
    match after_givens(givens.take(m)) {
        Some(b) => {
            if b[c].contains(givens[m].1) {
                let t = choose|t: int| 0 <= t < b[c].len() && b[c][t] == givens[m].1;
                assert(false);
            }
        },
        None => {},
    }
    lemma_after_givens_failed(givens, m + 1);
}

/// The board on which the digits among the first `k` characters of a text
/// stand alone in their cells and every other cell is free.
pub open spec fn givens_board(text: Seq<char>, k: int) -> Board {
    Seq::new(
        81,
        |i: int| if i < k && is_digit(text[i]) {
            seq![text[i]]
        } else {
            all_digits()
        },
    )
}

/// Reading a text fixes its digits one by one, and yet what it gives is what
/// the digits mean together: the greatest consistent board on which every
/// given cell holds its digit, and a contradiction exactly where there is no
/// consistent board at all with the givens read so far.
pub proof fn lemma_parsed_is_greatest(text: Seq<char>, k: int)
    requires
        0 <= k <= 81,
    ensures
        (match parsed_upto(text, k) {
            Ok(b) => greatest_consistent(b, givens_board(text, k)) && forall|i: int|
                0 <= i < k ==> is_blank(#[trigger] text[i]) || is_digit(text[i]),
            Err(ParseError::Contradiction) => forall|x: Board|
                board_wf(x) && consistent(x) ==> !#[trigger] refines(x, givens_board(text, k)),
            Err(ParseError::InvalidValue { value, row, column }) => exists|i: int|
                0 <= i < k && !is_blank(#[trigger] text[i]) && !is_digit(text[i]) && value
                    == text[i],
            Err(ParseError::WrongLength { found }) => false,
        }),
    decreases k,
{
    lemma_all_digits();
    if k == 0 {
        lemma_full_board();
        assert(givens_board(text, 0) =~= full_board());
        lemma_refines_refl(full_board());
        assert forall|x: Board|
            board_wf(x) && consistent(x) && #[trigger] refines(x, full_board()) implies refines(
            x,
            full_board(),
        ) by {}
    } else {
        lemma_parsed_is_greatest(text, k - 1);
        let low = givens_board(text, k - 1);
        let high = givens_board(text, k);
        let value = text[k - 1];
        assert(refines(high, low)) by {
            assert forall|i: int| 0 <= i < high.len() implies within(
                #[trigger] high[i],
                low[i],
            ) by {
                if i == k - 1 && is_digit(value) {
                    assert forall|e: char| #[trigger] high[i].contains(e) implies low[i].contains(
                        e,
                    ) by {
                        let t = choose|t: int| 0 <= t < high[i].len() && high[i][t] == e;
                    }
                }
            }
        }
        match parsed_upto(text, k - 1) {
            Ok(b) => {
                if is_blank(value) {
                    assert(high =~= low);
                } else if is_digit(value) {
                    let start = b.update(k - 1, seq![value]);
                    // a consistent board below the board of the givens lies
                    // below the start
                    assert forall|x: Board|
                        board_wf(x) && consistent(x) && #[trigger] refines(x, high) implies refines(
                        x,
                        start,
                    ) by {
                        lemma_refines_trans(x, high, low);
                        assert(refines(x, b));
                        assert forall|i: int| 0 <= i < x.len() implies within(
                            #[trigger] x[i],
                            start[i],
                        ) by {
                            if i == k - 1 {
                                assert(within(x[i], high[i]));
                            } else {
                                assert(within(x[i], b[i]));
                            }
                        }
                    }
                    assert(refines(start, high)) by {
                        assert forall|i: int| 0 <= i < start.len() implies within(
                            #[trigger] start[i],
                            high[i],
                        ) by {
                            if i != k - 1 {
                                assert(within(b[i], low[i]));
                            }
                        }
                    }
                    match given(b, k - 1, value) {
                        Some(after) => {
                            lemma_given_consistent(b, k - 1, value);
                            lemma_refines_trans(after, start, high);
                            assert forall|x: Board|
                                board_wf(x) && consistent(x) && #[trigger] refines(
                                    x,
                                    high,
                                ) implies refines(x, after) by {
                                assert(refines(x, start));
                            }
                        },
                        None => {
                            lemma_given_fails(b, k - 1, value);
                            assert forall|x: Board|
                                board_wf(x) && consistent(x) implies !#[trigger] refines(
                                x,
                                high,
                            ) by {
                                if refines(x, high) {
                                    lemma_refines_trans(x, high, low);
                                    assert(refines(x, b));
                                    assert(refines(x, start));
                                }
                            }
                        },
                    }
                } else {
                    assert(!is_blank(text[k - 1]) && !is_digit(text[k - 1]));
                }
            },
            Err(ParseError::Contradiction) => {
                assert forall|x: Board| board_wf(x) && consistent(x) implies !#[trigger] refines(
                    x,
                    high,
                ) by {
                    if refines(x, high) {
                        lemma_refines_trans(x, high, low);
                    }
                }
            },
            Err(ParseError::InvalidValue { value, row, column }) => {
                let i = choose|i: int|
                    0 <= i < k - 1 && !is_blank(#[trigger] text[i]) && !is_digit(text[i]) && value
                        == text[i];
                assert(!is_blank(text[i]));
            },
            Err(ParseError::WrongLength { found }) => {},
        }
    }
}

} // verus!
