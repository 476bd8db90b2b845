//! The mathematical model of a board.
//!
//! A board is a sequence of 81 candidate sets, one per cell in row-major
//! order.  Everything the engine promises is stated over this model.

use vstd::prelude::*;
use crate::coord::{is_peer, picked, lemma_picked};
use crate::digits::{
    all_digits, is_candidates, within, lemma_all_digits, lemma_candidates_len, lemma_same_digits,
    lemma_within_len,
};

verus! {

/// The candidate sets of the 81 cells.
pub type Board = Seq<Seq<char>>;

/// The board is whole: 81 cells, each with a non-empty candidate set.
pub open spec fn board_wf(b: Board) -> bool {
    &&& b.len() == 81
    &&& forall|i: int| 0 <= i < 81 ==> is_candidates(#[trigger] b[i]) && b[i].len() >= 1
}

/// The board on which nothing is known yet.
pub open spec fn full_board() -> Board {
    Seq::new(81, |i: int| all_digits())
}

/// A cell is solved when a single candidate is left.
pub open spec fn solved(b: Board, i: int) -> bool {
    b[i].len() == 1
}

/// If `p` is solved, its digit is no candidate of `q`.
pub open spec fn pair_ok(b: Board, p: int, q: int) -> bool {
    solved(b, p) ==> !b[q].contains(b[p][0])
}

/// The consistency invariant: no peer of a solved cell keeps that cell's digit
/// as a candidate.  In particular no two peers are solved to the same digit.
pub open spec fn consistent(b: Board) -> bool {
    forall|p: int, q: int| is_peer(p, q) ==> #[trigger] pair_ok(b, p, q)
}

/// `x` lies below `b`: every cell of `x` keeps only candidates that the same
/// cell has in `b`.
pub open spec fn refines(x: Board, b: Board) -> bool {
    &&& x.len() == b.len()
    &&& forall|i: int| 0 <= i < x.len() ==> within(#[trigger] x[i], b[i])
}

/// Every cell is solved.
pub open spec fn complete(b: Board) -> bool {
    forall|i: int| 0 <= i < 81 ==> #[trigger] solved(b, i)
}

/// A solved grid: every cell holds one digit and no two peers hold the same.
pub open spec fn is_solution(g: Board) -> bool {
    board_wf(g) && complete(g) && consistent(g)
}

/// The number of candidates in the first `n` cells.
pub open spec fn total_upto(b: Board, n: int) -> nat
    decreases n,
{
    if n <= 0 {
        0
    } else {
        total_upto(b, n - 1) + b[n - 1].len()
    }
}

/// The number of candidates on the whole board.
pub open spec fn total(b: Board) -> nat {
    total_upto(b, b.len() as int)
}

/// For each cell, whether it holds exactly `s` candidates.
pub open spec fn sized(b: Board, s: int) -> Seq<bool> {
    Seq::new(81, |i: int| b[i].len() == s)
}

/// The cells with at least two and fewer than `s` candidates: fewest
/// candidates first, cells of one size in coordinate order.
pub open spec fn order_below(b: Board, s: int) -> Seq<int>
    decreases s,
{
    if s <= 2 {
        Seq::empty()
    } else {
        order_below(b, s - 1) + picked(sized(b, s - 1), 81)
    }
}

/// The unsolved cells in the order in which the search looks at them:
/// fewest candidates first, cells of one size in coordinate order.
pub open spec fn candidate_order(b: Board) -> Seq<int> {
    order_below(b, 10)
}

/// `a` comes before `c` in the order of the search.
pub open spec fn comes_before(b: Board, a: int, c: int) -> bool {
    b[a].len() < b[c].len() || (b[a].len() == b[c].len() && a < c)
}

/// What `order_below` lists, and in what order.
proof fn lemma_order_below(b: Board, s: int)
    requires
        b.len() == 81,
        2 <= s <= 10,
    ensures
        forall|j: int|
            0 <= j < order_below(b, s).len() ==> 0 <= #[trigger] order_below(b, s)[j] < 81 && 2
                <= b[order_below(b, s)[j]].len() < s,
        forall|j: int, k: int|
            0 <= j < k < order_below(b, s).len() ==> comes_before(
                b,
                #[trigger] order_below(b, s)[j],
                #[trigger] order_below(b, s)[k],
            ),
        forall|i: int|
            0 <= i < 81 && 2 <= b[i].len() < s ==> #[trigger] order_below(b, s).contains(i),
    decreases s,
{
    if s > 2 {
        lemma_order_below(b, s - 1);
        let head = order_below(b, s - 1);
        let tail = picked(sized(b, s - 1), 81);
        let all = order_below(b, s);
        lemma_picked(sized(b, s - 1), 81);
        assert(all == head + tail);
        assert forall|j: int| 0 <= j < all.len() implies 0 <= #[trigger] all[j] < 81 && 2
            <= b[all[j]].len() < s by {
            if j >= head.len() {
                assert(all[j] == tail[j - head.len()]);
                assert(sized(b, s - 1)[tail[j - head.len()]]);
            } else {
                assert(all[j] == head[j]);
            }
        }
        assert forall|j: int, k: int| 0 <= j < k < all.len() implies comes_before(
            b,
            #[trigger] all[j],
            #[trigger] all[k],
        ) by {
            if k < head.len() {
                assert(all[j] == head[j] && all[k] == head[k]);
            } else if j < head.len() {
                assert(all[j] == head[j]);
                assert(all[k] == tail[k - head.len()]);
                assert(sized(b, s - 1)[tail[k - head.len()]]);
            } else {
                assert(all[j] == tail[j - head.len()]);
                assert(all[k] == tail[k - head.len()]);
                assert(sized(b, s - 1)[tail[j - head.len()]]);
                assert(sized(b, s - 1)[tail[k - head.len()]]);
            }
        }
        assert forall|i: int| 0 <= i < 81 && 2 <= b[i].len() < s implies #[trigger] all.contains(
            i,
        ) by {
            if b[i].len() < s - 1 {
                assert(head.contains(i));
                let j = choose|j: int| 0 <= j < head.len() && head[j] == i;
                assert(all[j] == i);
            } else {
                assert(sized(b, s - 1)[i]);
                assert(tail.contains(i));
                let j = choose|j: int| 0 <= j < tail.len() && tail[j] == i;
                assert(all[head.len() + j] == i);
            }
        }
    }
}

/// The order of the search lists exactly the unsolved cells, each once, those
/// with fewest candidates first and cells of one size in coordinate order.  It
/// is empty exactly when the board is complete.
pub proof fn lemma_candidate_order(b: Board)
    requires
        board_wf(b),
    ensures
        forall|j: int|
            0 <= j < candidate_order(b).len() ==> 0 <= #[trigger] candidate_order(b)[j] < 81
                && !solved(b, candidate_order(b)[j]),
        forall|j: int, k: int|
            0 <= j < k < candidate_order(b).len() ==> comes_before(
                b,
                #[trigger] candidate_order(b)[j],
                #[trigger] candidate_order(b)[k],
            ),
        forall|i: int| 0 <= i < 81 && !solved(b, i) ==> #[trigger] candidate_order(b).contains(i),
        candidate_order(b).len() == 0 <==> complete(b),
{
    lemma_order_below(b, 10);
    let o = candidate_order(b);
    assert forall|i: int| 0 <= i < 81 && !solved(b, i) implies #[trigger] o.contains(i) by {
        lemma_candidates_len(b[i]);
    }
    if o.len() == 0 {
        assert forall|i: int| 0 <= i < 81 implies #[trigger] solved(b, i) by {
            if !solved(b, i) {
                assert(o.contains(i));
            }
        }
    }
    if complete(b) && o.len() > 0 {
        assert(solved(b, o[0]));
    }
}

/// The full board is whole and consistent.
pub proof fn lemma_full_board()
    ensures
        board_wf(full_board()),
        consistent(full_board()),
{
    lemma_all_digits();
    assert forall|p: int, q: int| is_peer(p, q) implies #[trigger] pair_ok(full_board(), p, q) by {}
}

/// Every board lies below itself.
pub proof fn lemma_refines_refl(b: Board)
    ensures
        refines(b, b),
{
}

/// A board below a board below a third lies below the third.
pub proof fn lemma_refines_trans(x: Board, y: Board, z: Board)
    requires
        refines(x, y),
        refines(y, z),
    ensures
        refines(x, z),
{
    assert forall|i: int| 0 <= i < x.len() implies within(#[trigger] x[i], z[i]) by {
        assert(within(x[i], y[i]));
        assert(within(y[i], z[i]));
    }
}

/// Narrowing one cell of a board gives a board below it.
pub proof fn lemma_refines_update(b: Board, c: int, v: Seq<char>)
    requires
        0 <= c < b.len(),
        within(v, b[c]),
    ensures
        refines(b.update(c, v), b),
{
    let n = b.update(c, v);
    assert forall|i: int| 0 <= i < n.len() implies within(#[trigger] n[i], b[i]) by {}
}

/// How replacing one cell changes the count over the first `n` cells.
proof fn lemma_total_upto_update(b: Board, c: int, v: Seq<char>, n: int)
    requires
        0 <= c < b.len(),
        0 <= n <= b.len(),
    ensures
        total_upto(b.update(c, v), n) == (if c < n {
            total_upto(b, n) - b[c].len() + v.len()
        } else {
            total_upto(b, n) as int
        }),
        total_upto(b, n) >= (if c < n {
            b[c].len()
        } else {
            0
        }),
    decreases n,
{
    if n > 0 {
        lemma_total_upto_update(b, c, v, n - 1);
    }
}

/// Replacing one cell changes the total by the difference in size.
pub proof fn lemma_total_update(b: Board, c: int, v: Seq<char>)
    requires
        0 <= c < b.len(),
    ensures
        total(b.update(c, v)) == total(b) - b[c].len() + v.len(),
{
    lemma_total_upto_update(b, c, v, b.len() as int);
}

/// Two boards that lie below each other are the same board.
pub proof fn lemma_refines_antisym(x: Board, y: Board)
    requires
        board_wf(x),
        board_wf(y),
        refines(x, y),
        refines(y, x),
    ensures
        x == y,
{
    assert forall|i: int| 0 <= i < 81 implies x[i] == y[i] by {
        assert(within(x[i], y[i]));
        assert(within(y[i], x[i]));
        lemma_same_digits(x[i], y[i]);
    }
    assert(x =~= y);
}

/// A board below another holds no more candidates in its first `n` cells.
proof fn lemma_refines_total_upto(x: Board, y: Board, n: int)
    requires
        board_wf(x),
        board_wf(y),
        refines(x, y),
        0 <= n <= 81,
    ensures
        total_upto(x, n) <= total_upto(y, n),
    decreases n,
{
    if n > 0 {
        lemma_refines_total_upto(x, y, n - 1);
        assert(within(x[n - 1], y[n - 1]));
        lemma_within_len(x[n - 1], y[n - 1]);
    }
}

/// A board below another holds no more candidates than that one.
pub proof fn lemma_refines_total(x: Board, y: Board)
    requires
        board_wf(x),
        board_wf(y),
        refines(x, y),
    ensures
        total(x) <= total(y),
{
    lemma_refines_total_upto(x, y, 81);
}

/// The number of cells among the first `n` that are not solved.
pub open spec fn unsolved_upto(b: Board, n: int) -> nat
    decreases n,
{
    if n <= 0 {
        0
    } else if solved(b, n - 1) {
        unsolved_upto(b, n - 1)
    } else {
        unsolved_upto(b, n - 1) + 1
    }
}

/// The number of cells that are not solved: at most 81, and none on a
/// complete board.
pub open spec fn unsolved(b: Board) -> nat {
    unsolved_upto(b, 81)
}

/// Among the first `n` cells at most `n` are unsolved, and a board below
/// another has no more of them than that one; it has fewer where a cell below
/// `n` is solved on the lower board only.
proof fn lemma_unsolved_upto(x: Board, y: Board, n: int, c: int)
    requires
        board_wf(x),
        board_wf(y),
        refines(x, y),
        0 <= n <= 81,
    ensures
        unsolved_upto(x, n) <= unsolved_upto(y, n) <= n,
        0 <= c < n && solved(x, c) && !solved(y, c) ==> unsolved_upto(x, n) < unsolved_upto(y, n),
    decreases n,
{
    if n > 0 {
        lemma_unsolved_upto(x, y, n - 1, c);
        assert(within(x[n - 1], y[n - 1]));
        lemma_within_len(x[n - 1], y[n - 1]);
    }
}

/// A board below another has no more unsolved cells than that one, and
/// fewer where it has solved a cell that the other has not.
pub proof fn lemma_unsolved(x: Board, y: Board, c: int)
    requires
        board_wf(x),
        board_wf(y),
        refines(x, y),
        0 <= c < 81,
        solved(x, c),
        !solved(y, c),
    ensures
        unsolved(x) < unsolved(y) <= 81,
{
    lemma_unsolved_upto(x, y, 81, c);
}

} // verus!
