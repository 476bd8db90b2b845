//! What propagation does to a board, stated over the model.
//!
//! Fixing a cell to one of its candidates takes the digit out of the cell's
//! peers, fixes every peer that is left with one candidate, and so on.  What
//! this leaves does not depend on the order of the steps: it is the greatest
//! board below the start in which propagation has come to rest, and there is
//! a contradiction exactly where no such board exists.  A digit that is no
//! candidate of the cell any more cannot be fixed there: that is a
//! contradiction too.

use vstd::prelude::*;
use crate::board::{
    Board, board_wf, consistent, pair_ok, refines, solved, unsolved, lemma_refines_antisym,
    lemma_refines_trans, lemma_refines_update, lemma_unsolved,
};
use crate::coord::is_peer;
use crate::digits::{all_digits, is_candidates, is_digit, within, lemma_all_digits, lemma_single};

verus! {

/// Whether propagation from `start` at cell `c` has come to rest in `x`:
/// cell `c`, and every cell that was not yet solved in `start`, obeys the
/// consistency invariant towards each of its peers.
pub open spec fn settled(x: Board, start: Board, c: int) -> bool {
    forall|p: int, q: int|
        is_peer(p, q) && (p == c || !solved(start, p)) ==> #[trigger] pair_ok(x, p, q)
}

/// `g` is the greatest board below `start` in which propagation from `start`
/// at cell `c` has come to rest.
pub open spec fn greatest_settled(g: Board, start: Board, c: int) -> bool {
    &&& board_wf(g)
    &&& settled(g, start, c)
    &&& refines(g, start)
    &&& forall|x: Board|
        board_wf(x) && settled(x, start, c) && #[trigger] refines(x, start) ==> refines(x, g)
}

/// What propagation from `start` at cell `c` leaves, where it does not end
/// in a contradiction.
pub open spec fn propagation(start: Board, c: int) -> Option<Board> {
    if exists|g: Board| greatest_settled(g, start, c) {
        Some(choose|g: Board| greatest_settled(g, start, c))
    } else {
        None
    }
}

/// The board after cell `c` of `b` has been fixed to `d`, where that does
/// not end in a contradiction.  It is a contradiction where `d` is no
/// candidate of `c` any more, and where propagation from the board on which
/// `c` holds `d` alone ends in one.
pub open spec fn given(b: Board, c: int, d: char) -> Option<Board> {
    if b[c].contains(d) {
        propagation(b.update(c, seq![d]), c)
    } else {
        None
    }
}

/// The board after the candidate set `v` has been assigned to cell `c` of
/// `b`.  The empty set is a contradiction.  A set of several digits overwrites
/// the cell and nothing else.  A single digit fixes the cell and propagates;
/// it is a contradiction where the digit is no candidate of the cell.
pub open spec fn assigned(b: Board, c: int, v: Seq<char>) -> Option<Board> {
    if v.len() == 0 {
        None
    } else if v.len() > 1 {
        Some(b.update(c, v))
    } else if !b[c].contains(v[0]) {
        None
    } else {
        given(b, c, v[0])
    }
}

/// `g` is the greatest consistent board below `start`.
pub open spec fn greatest_consistent(g: Board, start: Board) -> bool {
    &&& board_wf(g)
    &&& consistent(g)
    &&& refines(g, start)
    &&& forall|x: Board|
        board_wf(x) && consistent(x) && #[trigger] refines(x, start) ==> refines(x, g)
}

/// In a consistent board propagation has come to rest, wherever it began.
pub proof fn lemma_consistent_settled(x: Board, start: Board, c: int)
    requires
        consistent(x),
    ensures
        settled(x, start, c),
{
}

/// A cell that keeps only `d` holds `d` alone, and a peer towards which it
/// obeys the consistency invariant has no `d`.
pub proof fn lemma_fixed(x: Board, c: int, d: char, q: int)
    requires
        board_wf(x),
        0 <= c < 81,
        within(x[c], seq![d]),
        pair_ok(x, c, q),
    ensures
        x[c] == seq![d],
        !x[q].contains(d),
{
    assert forall|e: char| #[trigger] x[c].contains(e) implies e == d by {
        assert(seq![d].contains(e));
        let k = choose|k: int| 0 <= k < seq![d].len() && seq![d][k] == e;
    }
    lemma_single(x[c], d);
}

/// Propagation from a start leaves at most one board.
pub proof fn lemma_greatest_unique(g: Board, h: Board, start: Board, c: int)
    requires
        greatest_settled(g, start, c),
        greatest_settled(h, start, c),
    ensures
        g == h,
{
    lemma_refines_antisym(g, h);
}

/// The digits of `s` that satisfy `p`, in the order of `s`.
pub open spec fn keep(s: Seq<char>, p: spec_fn(char) -> bool) -> Seq<char>
    decreases s.len(),
{
    if s.len() == 0 {
        s
    } else if p(s.last()) {
        keep(s.drop_last(), p).push(s.last())
    } else {
        keep(s.drop_last(), p)
    }
}

/// What is kept of a candidate set is a candidate set, and holds exactly
/// the digits of it that satisfy `p`.
proof fn lemma_keep(s: Seq<char>, p: spec_fn(char) -> bool)
    requires
        is_candidates(s),
    ensures
        is_candidates(keep(s, p)),
        forall|c: char| #[trigger] keep(s, p).contains(c) <==> s.contains(c) && p(c),
    decreases s.len(),
{
    if s.len() > 0 {
        let head = s.drop_last();
        let last = s.last();
        lemma_keep(head, p);
        let kept = keep(head, p);
        let all = keep(s, p);
        assert forall|c: char| #[trigger] head.contains(c) implies s.contains(c) && c < last by {
            let k = choose|k: int| 0 <= k < head.len() && head[k] == c;
            assert(s[k] == c);
            assert(s[k] < s[s.len() - 1]);
        }
        assert forall|c: char| #[trigger] all.contains(c) <==> s.contains(c) && p(c) by {
            if all.contains(c) {
                let k = choose|k: int| 0 <= k < all.len() && all[k] == c;
                if p(last) && k == all.len() - 1 {
                    assert(s[s.len() - 1] == c);
                } else {
                    assert(kept[k] == c);
                    assert(kept.contains(c));
                }
            }
            if s.contains(c) && p(c) {
                let k = choose|k: int| 0 <= k < s.len() && s[k] == c;
                if k == s.len() - 1 {
                    assert(all[all.len() - 1] == c);
                } else {
                    assert(head[k] == c);
                    assert(kept.contains(c));
                    let m = choose|m: int| 0 <= m < kept.len() && kept[m] == c;
                    assert(all[m] == c);
                }
            }
        }
        if p(last) {
            assert forall|a: int, b: int| 0 <= a < b < all.len() implies #[trigger] all[a]
                < #[trigger] all[b] by {
                if b == all.len() - 1 {
                    assert(kept[a] == all[a]);
                    assert(kept.contains(all[a]));
                    assert(head.contains(all[a]));
                } else {
                    assert(kept[a] < kept[b]);
                }
            }
            assert forall|a: int| 0 <= a < all.len() implies is_digit(#[trigger] all[a]) by {
                if a < all.len() - 1 {
                    assert(is_digit(kept[a]));
                } else {
                    assert(is_digit(s[s.len() - 1]));
                }
            }
        }
    }
}

/// Whether some board below `start` in which propagation from `start` at
/// `c` has come to rest has `d` as a candidate of cell `i`.
pub open spec fn possible(start: Board, c: int, i: int, d: char) -> bool {
    exists|x: Board|
        board_wf(x) && settled(x, start, c) && #[trigger] refines(x, start) && x[i].contains(d)
}

/// Cell by cell, the candidates that are possible.
pub open spec fn join(start: Board, c: int) -> Board {
    Seq::new(81, |i: int| keep(all_digits(), |d: char| possible(start, c, i, d)))
}

/// Where propagation has come to rest in some board below `start`, the
/// join of all such boards is the greatest of them.
pub proof fn lemma_join_is_greatest(start: Board, c: int, witness: Board)
    requires
        board_wf(witness),
        settled(witness, start, c),
        refines(witness, start),
    ensures
        greatest_settled(join(start, c), start, c),
{
    let g = join(start, c);
    lemma_all_digits();
    assert forall|i: int| 0 <= i < 81 implies is_candidates(#[trigger] g[i]) && (forall|d: char|
        #[trigger] g[i].contains(d) <==> is_digit(d) && possible(start, c, i, d)) by {
        lemma_keep(all_digits(), |d: char| possible(start, c, i, d));
    }
    assert forall|x: Board|
        board_wf(x) && settled(x, start, c) && #[trigger] refines(x, start) implies refines(
        x,
        g,
    ) by {
        assert forall|i: int| 0 <= i < x.len() implies within(#[trigger] x[i], g[i]) by {
            assert forall|d: char| #[trigger] x[i].contains(d) implies g[i].contains(d) by {
                let k = choose|k: int| 0 <= k < x[i].len() && x[i][k] == d;
                assert(is_digit(x[i][k]));
                assert(possible(start, c, i, d));
            }
        }
    }
    assert(refines(witness, g));
    assert forall|i: int| 0 <= i < 81 implies (#[trigger] g[i]).len() >= 1 by {
        assert(within(witness[i], g[i]));
        assert(witness[i].contains(witness[i][0]));
        assert(g[i].contains(witness[i][0]));
    }
    assert(refines(g, start)) by {
        assert forall|i: int| 0 <= i < g.len() implies within(#[trigger] g[i], start[i]) by {
            assert forall|d: char| #[trigger] g[i].contains(d) implies start[i].contains(d) by {
                assert(possible(start, c, i, d));
                let x = choose|x: Board|
                    board_wf(x) && settled(x, start, c) && #[trigger] refines(x, start)
                        && x[i].contains(d);
                assert(within(x[i], start[i]));
            }
        }
    }
    assert forall|p: int, q: int|
        is_peer(p, q) && (p == c || !solved(start, p)) implies #[trigger] pair_ok(g, p, q) by {
        if solved(g, p) && g[q].contains(g[p][0]) {
            let e = g[p][0];
            assert(possible(start, c, q, e));
            let x = choose|x: Board|
                board_wf(x) && settled(x, start, c) && #[trigger] refines(x, start)
                    && x[q].contains(e);
            assert(refines(x, g));
            assert(g[p] =~= seq![e]);
            assert(within(x[p], g[p]));
            assert(pair_ok(x, p, q));
            lemma_fixed(x, p, e, q);
        }
    }
}

/// Propagation succeeds exactly where it can come to rest in some board
/// below the start, and what it leaves is the greatest such board.
pub proof fn lemma_propagation(start: Board, c: int)
    ensures
        propagation(start, c) is Some <==> exists|x: Board|
            board_wf(x) && settled(x, start, c) && #[trigger] refines(x, start),
        propagation(start, c) matches Some(g) ==> greatest_settled(g, start, c),
{
    if exists|x: Board| board_wf(x) && settled(x, start, c) && #[trigger] refines(x, start) {
        let x = choose|x: Board|
            board_wf(x) && settled(x, start, c) && #[trigger] refines(x, start);
        lemma_join_is_greatest(start, c, x);
    }
    if propagation(start, c) is Some {
        let g = choose|g: Board| greatest_settled(g, start, c);
        assert(refines(g, start));
    }
}

/// What fixing cell `c` to `d` leaves, where it succeeds: `d` was a
/// candidate of `c`, and the board left lies below the board before; on it `c`
/// holds `d` alone and no peer of `c` has `d`.
pub proof fn lemma_given(b: Board, c: int, d: char)
    requires
        b.len() == 81,
        0 <= c < 81,
        given(b, c, d) is Some,
    ensures
        b[c].contains(d),
        refines(given(b, c, d)->0, b),
        greatest_settled(given(b, c, d)->0, b.update(c, seq![d]), c),
        board_wf(given(b, c, d)->0),
        given(b, c, d)->0[c] == seq![d],
        forall|q: int| is_peer(c, q) ==> !(#[trigger] given(b, c, d)->0[q]).contains(d),
        forall|i: int| 0 <= i < 81 && i != c ==> within(#[trigger] given(b, c, d)->0[i], b[i]),
{
    let start = b.update(c, seq![d]);
    let g = given(b, c, d)->0;
    lemma_propagation(start, c);
    assert(within(g[c], start[c]));
    assert forall|q: int| is_peer(c, q) implies !(#[trigger] g[q]).contains(d) by {
        assert(pair_ok(g, c, q));
        lemma_fixed(g, c, d, q);
    }
    assert(g[c] == seq![d]) by {
        assert forall|e: char| #[trigger] g[c].contains(e) implies e == d by {
            assert(start[c].contains(e));
        }
        lemma_single(g[c], d);
    }
    assert forall|i: int| 0 <= i < 81 && i != c implies within(#[trigger] g[i], b[i]) by {
        assert(within(g[i], start[i]));
    }
    assert(within(seq![d], b[c])) by {
        assert forall|e: char| #[trigger] seq![d].contains(e) implies b[c].contains(e) by {
            let k = choose|k: int| 0 <= k < seq![d].len() && seq![d][k] == e;
        }
    }
    lemma_refines_update(b, c, seq![d]);
    lemma_refines_trans(g, start, b);
}

/// Fixing a cell keeps the consistency invariant between every two cells
/// that obeyed it before, and sets it up between the fixed cell and its peers.
pub proof fn lemma_given_pairs(b: Board, c: int, d: char, p: int, q: int)
    requires
        board_wf(b),
        0 <= c < 81,
        given(b, c, d) is Some,
        is_peer(p, q),
        p == c || q == c || pair_ok(b, p, q),
    ensures
        pair_ok(given(b, c, d)->0, p, q),
{
    let start = b.update(c, seq![d]);
    let g = given(b, c, d)->0;
    lemma_given(b, c, d);
    if p == c {
        assert(pair_ok(g, p, q));
    } else if !solved(start, p) {
        assert(pair_ok(g, p, q));
    } else if solved(g, p) {
        let e = b[p][0];
        assert(within(g[p], b[p]));
        assert(g[p].contains(g[p][0]));
        assert(b[p].contains(g[p][0]));
        assert(g[p][0] == e) by {
            let k = choose|k: int| 0 <= k < b[p].len() && b[p][k] == g[p][0];
        }
        if q == c {
            assert(is_peer(c, p));
            assert(!g[p].contains(d));
            if g[c].contains(e) {
                let k = choose|k: int| 0 <= k < g[c].len() && g[c][k] == e;
                assert(false);
            }
        } else {
            assert(within(g[q], b[q]));
        }
    }
}

/// Fixing a cell on a consistent board leaves a consistent board: among
/// the consistent boards below the start, the greatest.
pub proof fn lemma_given_consistent(b: Board, c: int, d: char)
    requires
        board_wf(b),
        consistent(b),
        0 <= c < 81,
        given(b, c, d) is Some,
    ensures
        consistent(given(b, c, d)->0),
        greatest_consistent(given(b, c, d)->0, b.update(c, seq![d])),
{
    let g = given(b, c, d)->0;
    lemma_given(b, c, d);
    assert forall|p: int, q: int| is_peer(p, q) implies #[trigger] pair_ok(g, p, q) by {
        assert(pair_ok(b, p, q));
        lemma_given_pairs(b, c, d, p, q);
    }
}

/// Fixing a cell ends in a contradiction only where no consistent board
/// below the board before has the digit alone in the cell.
pub proof fn lemma_given_fails(b: Board, c: int, d: char)
    requires
        b.len() == 81,
        0 <= c < 81,
        given(b, c, d) is None,
    ensures
        forall|x: Board|
            board_wf(x) && consistent(x) && refines(x, b) ==> !#[trigger] refines(
                x,
                b.update(c, seq![d]),
            ),
{
    let start = b.update(c, seq![d]);
    lemma_propagation(start, c);
    assert forall|x: Board|
        board_wf(x) && consistent(x) && refines(x, b) implies !#[trigger] refines(x, start) by {
        if refines(x, start) {
            if b[c].contains(d) {
                lemma_consistent_settled(x, start, c);
            } else {
                assert(within(x[c], b[c]));
                assert(within(x[c], start[c]));
                assert(x[c].contains(x[c][0]));
                assert(start[c].contains(x[c][0]));
                let k = choose|k: int| 0 <= k < start[c].len() && start[c][k] == x[c][0];
                assert(x[c][0] == d);
                assert(false);
            }
        }
    }
}

/// Fixing an unsolved cell to one of its digits leaves fewer unsolved cells
/// on the board.
pub proof fn lemma_given_unsolved(b: Board, c: int, j: int)
    requires
        board_wf(b),
        0 <= c < 81,
        b[c].len() >= 2,
        0 <= j < b[c].len(),
        given(b, c, b[c][j]) is Some,
    ensures
        unsolved(given(b, c, b[c][j])->0) < unsolved(b),
{
    let d = b[c][j];
    let after = given(b, c, d)->0;
    lemma_given(b, c, d);
    lemma_unsolved(after, b, c);
}

} // verus!
