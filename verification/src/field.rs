//! The board itself: 81 cells with their candidate sets, and the propagator.

use vstd::prelude::*;
use vstd::string::*;
use crate::board::{
    Board, board_wf, candidate_order, consistent, full_board, order_below, pair_ok, refines, sized,
    solved, total, lemma_refines_refl, lemma_refines_total, lemma_refines_trans,
    lemma_total_update,
};
use crate::cell::Cell;
use crate::coord::{
    index_of, is_coordinate, is_key, is_peer, key_index, key_of, make_key, peer_keys, peer_marks,
    peers_of, picked, unit_keys, lemma_key_index, lemma_peers, lemma_picked,
};
use crate::digits::{
    all_digits, is_candidates, position, within, without, lemma_all_digits, lemma_remove,
    lemma_single, lemma_within_len,
};
use crate::propagate::{
    assigned, greatest_settled, propagation, settled, lemma_fixed, lemma_given,
    lemma_given_consistent, lemma_given_pairs, lemma_greatest_unique, lemma_propagation,
};

verus! {

/// The board: every coordinate with its cell, in row-major order.
pub struct SudokuField {
    cells: Vec<(String, Cell)>,
}

impl View for SudokuField {
    type V = Board;

    /// The candidate sets of the 81 cells in row-major order.
    closed spec fn view(&self) -> Board {
        Seq::new(self.cells@.len(), |i: int| self.cells@[i].1.values@)
    }
}

/// The state of a sweep that takes `d` out of the peers of `c`, when the
/// first `k` peers are done: what is known of the board `cur` that propagation
/// from `start` at `c` has reached so far.
spec fn sweeping(start: Board, c: int, d: char, cur: Board, k: int) -> bool {
    &&& board_wf(cur)
    &&& cur[c] == seq![d]
    &&& refines(cur, start)
    &&& forall|j: int| 0 <= j < k ==> !cur[#[trigger] peers_of(c)[j]].contains(d)
    &&& forall|p: int, q: int|
        is_peer(p, q) && p != c && !solved(start, p) ==> #[trigger] pair_ok(cur, p, q)
    &&& forall|x: Board|
        board_wf(x) && settled(x, start, c) && #[trigger] refines(x, start) ==> refines(x, cur)
}

/// The `k`-th peer of `c` is a peer of `c`.
proof fn lemma_peer_at(c: int, k: int)
    requires
        0 <= c < 81,
        0 <= k < 20,
    ensures
        is_peer(c, peers_of(c)[k]),
        peers_of(c).len() == 20,
{
    lemma_peers(c, 0);
    lemma_picked(peer_marks(c), 81);
    assert(peer_marks(c)[peers_of(c)[k]]);
}

/// The sweep starts from the board on which `c` holds `d` alone.
proof fn lemma_sweep_start(start: Board, c: int, d: char)
    requires
        board_wf(start),
        0 <= c < 81,
        start[c] == seq![d],
    ensures
        sweeping(start, c, d, start, 0),
{
    lemma_refines_refl(start);
    assert forall|p: int, q: int|
        is_peer(p, q) && p != c && !solved(start, p) implies #[trigger] pair_ok(start, p, q) by {}
}

/// A peer without `d` is done as it stands.
proof fn lemma_sweep_skip(start: Board, c: int, d: char, cur: Board, k: int)
    requires
        sweeping(start, c, d, cur, k),
        0 <= k,
        !cur[peers_of(c)[k]].contains(d),
    ensures
        sweeping(start, c, d, cur, k + 1),
{
}

/// What is known of the peer that is narrowed next.
proof fn lemma_sweep_narrow(start: Board, c: int, d: char, cur: Board, k: int, i: int)
    requires
        board_wf(start),
        sweeping(start, c, d, cur, k),
        0 <= c < 81,
        0 <= k < 20,
        0 <= i < cur[peers_of(c)[k]].len(),
        cur[peers_of(c)[k]][i] == d,
    ensures
        is_candidates(cur[peers_of(c)[k]].remove(i)),
        total(cur.update(peers_of(c)[k], cur[peers_of(c)[k]].remove(i))) < total(start),
{
    let q = peers_of(c)[k];
    lemma_peer_at(c, k);
    lemma_remove(cur[q], i);
    lemma_total_update(cur, q, cur[q].remove(i));
    lemma_refines_total(cur, start);
}

/// A board below `cur` whose cell `q` lacks the digit that is taken out of
/// it lies below the narrowed board.
proof fn lemma_below_narrowed(x: Board, cur: Board, q: int, i: int)
    requires
        board_wf(cur),
        refines(x, cur),
        0 <= q < 81,
        0 <= i < cur[q].len(),
        !x[q].contains(cur[q][i]),
    ensures
        refines(x, cur.update(q, cur[q].remove(i))),
{
    let rest = cur[q].remove(i);
    let mid = cur.update(q, rest);
    lemma_remove(cur[q], i);
    assert forall|t: int| 0 <= t < x.len() implies within(#[trigger] x[t], mid[t]) by {
        assert(within(x[t], cur[t]));
        if t == q {
            assert forall|e: char| #[trigger] x[q].contains(e) implies rest.contains(e) by {
                assert(cur[q].contains(e));
            }
        }
    }
}

/// A cell that is not solved on a board is not solved on a board above it.
proof fn lemma_unsolved_above(cur: Board, start: Board, p: int)
    requires
        board_wf(cur),
        board_wf(start),
        refines(cur, start),
        0 <= p < 81,
        !solved(cur, p),
    ensures
        !solved(start, p),
{
    assert(within(cur[p], start[p]));
    lemma_within_len(cur[p], start[p]);
}

/// A board in which propagation from `start` at `c` has come to rest, and
/// which lies below the board `cur` narrowed at the peer `q` of `c`, is one in
/// which propagation from the narrowed board at `q` has come to rest.
proof fn lemma_settled_deeper(x: Board, start: Board, c: int, cur: Board, q: int, rest: Seq<char>)
    requires
        board_wf(start),
        board_wf(cur),
        refines(cur, start),
        settled(x, start, c),
        0 <= c < 81,
        0 <= q < 81,
        q != c,
        solved(cur, c),
        cur[q].len() >= 2,
    ensures
        settled(x, cur.update(q, rest), q),
{
    let mid = cur.update(q, rest);
    assert forall|p: int, r: int|
        is_peer(p, r) && (p == q || !solved(mid, p)) implies #[trigger] pair_ok(x, p, r) by {
        if p == q {
            lemma_unsolved_above(cur, start, q);
        } else {
            assert(mid[p] == cur[p]);
            lemma_unsolved_above(cur, start, p);
        }
    }
}

/// A peer that was narrowed without a contradiction is done.
proof fn lemma_sweep_step(start: Board, c: int, d: char, cur: Board, k: int, i: int, next: Board)
    requires
        board_wf(start),
        sweeping(start, c, d, cur, k),
        0 <= c < 81,
        0 <= k < 20,
        0 <= i < cur[peers_of(c)[k]].len(),
        cur[peers_of(c)[k]][i] == d,
        assigned(cur, peers_of(c)[k], cur[peers_of(c)[k]].remove(i)) == Some(next),
    ensures
        sweeping(start, c, d, next, k + 1),
{
    let q = peers_of(c)[k];
    let rest = cur[q].remove(i);
    let mid = cur.update(q, rest);
    lemma_peer_at(c, k);
    lemma_remove(cur[q], i);
    assert(is_peer(q, c));
    assert(rest.len() >= 1);
    assert(refines(mid, cur)) by {
        assert forall|t: int| 0 <= t < mid.len() implies within(#[trigger] mid[t], cur[t]) by {}
    }
    if rest.len() > 1 {
        assert(next == mid);
    } else {
        assert(rest =~= seq![rest[0]]);
        lemma_given(cur, q, rest[0]);
    }
    assert(refines(next, mid));
    lemma_refines_trans(next, mid, cur);
    lemma_refines_trans(next, cur, start);
    assert(board_wf(next)) by {
        if rest.len() > 1 {
            assert forall|t: int| 0 <= t < 81 implies is_candidates(#[trigger] next[t])
                && next[t].len() >= 1 by {
                if t != q {
                    assert(next[t] == cur[t]);
                }
            }
        }
    }
    assert(next[c] == seq![d]) by {
        assert(within(next[c], cur[c]));
        assert forall|e: char| #[trigger] next[c].contains(e) implies e == d by {
            assert(cur[c].contains(e));
        }
        lemma_single(next[c], d);
    }
    assert forall|j: int| 0 <= j < k + 1 implies !next[#[trigger] peers_of(c)[j]].contains(d) by {
        let r = peers_of(c)[j];
        lemma_peer_at(c, j);
        assert(within(next[r], mid[r]));
        if j < k {
            assert(!cur[r].contains(d));
        }
        if next[r].contains(d) {
            assert(mid[r].contains(d));
            if r == q {
                assert(rest.contains(d));
            } else {
                assert(cur[r].contains(d));
            }
        }
    }
    assert forall|p: int, r: int|
        is_peer(p, r) && p != c && !solved(start, p) implies #[trigger] pair_ok(next, p, r) by {
        assert(pair_ok(cur, p, r));
        if rest.len() > 1 {
            if p != q && r == q && solved(next, p) {
                if next[q].contains(next[p][0]) {
                    assert(cur[q].contains(next[p][0]));
                }
            }
        } else {
            lemma_given_pairs(cur, q, rest[0], p, r);
        }
    }
    assert forall|x: Board|
        board_wf(x) && settled(x, start, c) && #[trigger] refines(x, start) implies refines(
        x,
        next,
    ) by {
        assert(refines(x, cur));
        assert(within(x[c], cur[c]));
        assert(pair_ok(x, c, q));
        lemma_fixed(x, c, d, q);
        lemma_below_narrowed(x, cur, q, i);
        assert(refines(x, mid));
        if rest.len() == 1 {
            lemma_settled_deeper(x, start, c, cur, q, rest);
        }
    }
}

/// Where narrowing a peer ends in a contradiction, propagation cannot come
/// to rest in any board below the start.
proof fn lemma_sweep_fail(start: Board, c: int, d: char, cur: Board, k: int, i: int)
    requires
        board_wf(start),
        sweeping(start, c, d, cur, k),
        0 <= c < 81,
        0 <= k < 20,
        0 <= i < cur[peers_of(c)[k]].len(),
        cur[peers_of(c)[k]][i] == d,
        assigned(cur, peers_of(c)[k], cur[peers_of(c)[k]].remove(i)) is None,
    ensures
        propagation(start, c) is None,
{
    let q = peers_of(c)[k];
    let rest = cur[q].remove(i);
    let mid = cur.update(q, rest);
    lemma_peer_at(c, k);
    lemma_remove(cur[q], i);
    lemma_propagation(start, c);
    lemma_propagation(mid, q);
    if propagation(start, c) is Some {
        let x = propagation(start, c)->0;
        assert(refines(x, start));
        assert(refines(x, cur));
        assert(within(x[c], cur[c]));
        assert(pair_ok(x, c, q));
        lemma_fixed(x, c, d, q);
        lemma_below_narrowed(x, cur, q, i);
        assert(refines(x, mid));
        if rest.len() == 0 {
            assert(within(x[q], mid[q]));
            assert(x[q].contains(x[q][0]));
            assert(rest.contains(x[q][0]));
            assert(false);
        } else {
            assert(rest.len() == 1);
            assert(rest =~= seq![rest[0]]);
            assert(rest.contains(rest[0]));
            assert(cur[q].contains(rest[0]));
            lemma_settled_deeper(x, start, c, cur, q, rest);
            assert(false);
        }
    }
}

/// When all twenty peers are done, propagation has come to rest.
proof fn lemma_sweep_end(start: Board, c: int, d: char, cur: Board)
    requires
        sweeping(start, c, d, cur, 20),
        0 <= c < 81,
    ensures
        propagation(start, c) == Some(cur),
{
    assert forall|p: int, q: int|
        is_peer(p, q) && (p == c || !solved(start, p)) implies #[trigger] pair_ok(cur, p, q) by {
        if p == c {
            lemma_peers(c, q);
            let j = choose|j: int| 0 <= j < peers_of(c).len() && peers_of(c)[j] == q;
            assert(!cur[peers_of(c)[j]].contains(d));
        }
    }
    assert(greatest_settled(cur, start, c));
    let g = choose|g: Board| greatest_settled(g, start, c);
    lemma_greatest_unique(g, cur, start, c);
}

impl SudokuField {
    /// Every coordinate stands at its place with its units and peers.
    pub closed spec fn cached(&self) -> bool {
        &&& self.cells@.len() == 81
        &&& forall|i: int|
            0 <= i < 81 ==> {
                &&& (#[trigger] self.cells@[i]).0@ == key_of(i)
                &&& self.cells@[i].1.units.deep_view() == unit_keys(i)
                &&& self.cells@[i].1.peers.deep_view() == peer_keys(i)
            }
    }

    /// The board is whole: the topology is in place and every cell holds a
    /// non-empty candidate set.
    pub open spec fn wf(&self) -> bool {
        self.cached() && board_wf(self@)
    }

    /// A board with all 81 cells at full candidates.
    pub fn new() -> (field: SudokuField)
        ensures
            field.wf(),
            field@ == full_board(),
    {
        let mut cells: Vec<(String, Cell)> = Vec::new();
        let mut i: usize = 0;
        while i < 81
            invariant
                i <= 81,
                cells@.len() == i,
                forall|t: int|
                    0 <= t < i ==> {
                        &&& (#[trigger] cells@[t]).0@ == key_of(t)
                        &&& cells@[t].1.values@ == all_digits()
                        &&& cells@[t].1.units.deep_view() == unit_keys(t)
                        &&& cells@[t].1.peers.deep_view() == peer_keys(t)
                    },
            decreases 81 - i,
        {
            let key = make_key(i);
            proof {
                lemma_key_index(i as int);
            }
            let cell = Cell::new(key.as_str());
            cells.push((key, cell));
            i += 1;
        }
        let field = SudokuField { cells };
        proof {
            lemma_all_digits();
            assert(field@ =~= full_board());
        }
        field
    }

    /// The cell with the given row-major index, with its current candidates.
    pub fn cell(&self, at: usize) -> (cell: &Cell)
        requires
            self.wf(),
            at < 81,
        ensures
            cell.values@ == self@[at as int],
            cell.units.deep_view() == unit_keys(at as int),
            cell.peers.deep_view() == peer_keys(at as int),
    {
        &self.cells[at].1
    }

    /// The cell at a coordinate, with its current candidates; nothing where
    /// the text names no cell.
    pub fn get(&self, key: &str) -> (found: Option<&Cell>)
        requires
            self.wf(),
        ensures
            found is Some <==> is_key(key@),
            found matches Some(cell) ==> ({
                &&& cell.values@ == self@[index_of(key@)]
                &&& cell.units.deep_view() == unit_keys(index_of(key@))
                &&& cell.peers.deep_view() == peer_keys(index_of(key@))
            }),
    {
        if is_coordinate(key) {
            Some(self.cell(key_index(key)))
        } else {
            None
        }
    }

    /// The unsolved cells with their keys, those with fewest candidates
    /// first and cells of one size in coordinate order.
    pub fn candidates(&self) -> (list: Vec<(&String, &Cell)>)
        requires
            self.wf(),
        ensures
            list@.len() == candidate_order(self@).len(),
            forall|j: int|
                0 <= j < list@.len() ==> ({
                    &&& (#[trigger] list@[j]).0@ == key_of(candidate_order(self@)[j])
                    &&& list@[j].1.values@ == self@[candidate_order(self@)[j]]
                    &&& list@[j].1.units.deep_view() == unit_keys(candidate_order(self@)[j])
                    &&& list@[j].1.peers.deep_view() == peer_keys(candidate_order(self@)[j])
                }),
    {
        let mut list: Vec<(&String, &Cell)> = Vec::new();
        let ghost mut order: Seq<int> = Seq::empty();
        let mut size: usize = 2;
        while size < 10
            invariant
                2 <= size <= 10,
                self.wf(),
                order == order_below(self@, size as int),
                list@.len() == order.len(),
                forall|j: int|
                    0 <= j < list@.len() ==> 0 <= #[trigger] order[j] < 81 && *list@[j].0
                        == self.cells@[order[j]].0 && *list@[j].1 == self.cells@[order[j]].1,
            decreases 10 - size,
        {
            let ghost head = order;
            let mut i: usize = 0;
            while i < 81
                invariant
                    2 <= size < 10,
                    i <= 81,
                    self.wf(),
                    head == order_below(self@, size as int),
                    order == head + picked(sized(self@, size as int), i as int),
                    list@.len() == order.len(),
                    forall|j: int|
                        0 <= j < list@.len() ==> 0 <= #[trigger] order[j] < 81 && *list@[j].0
                            == self.cells@[order[j]].0 && *list@[j].1 == self.cells@[order[j]].1,
                decreases 81 - i,
            {
                let ghost tail = picked(sized(self@, size as int), i as int);
                if self.cells[i].1.values.as_str().unicode_len() == size {
                    list.push((&self.cells[i].0, &self.cells[i].1));
                    proof {
                        order = order.push(i as int);
                        assert(order =~= head + tail.push(i as int));
                    }
                }
                i += 1;
            }
            size += 1;
        }
        proof {
            assert forall|j: int| 0 <= j < list@.len() implies {
                &&& (#[trigger] list@[j]).0@ == key_of(candidate_order(self@)[j])
                &&& list@[j].1.values@ == self@[candidate_order(self@)[j]]
                &&& list@[j].1.units.deep_view() == unit_keys(candidate_order(self@)[j])
                &&& list@[j].1.peers.deep_view() == peer_keys(candidate_order(self@)[j])
            } by {
                assert(0 <= order[j] < 81);
            }
        }
        list
    }

    /// Restricts the cell at `key` to the candidates `value`.
    ///
    /// A text of several digits overwrites the cell's candidates and touches
    /// nothing else.  A single digit fixes the cell to it and takes the digit
    /// out of every peer; a peer left with one candidate is fixed in turn.  The
    /// empty text is a contradiction, and so is a single digit that is no
    /// candidate of the cell any more: both leave the board as it is.  On a
    /// contradiction further down nothing is returned either, and the board is
    /// to be thrown away.
    pub fn assign(&mut self, key: &str, value: &str) -> (res: Option<String>)
        requires
            old(self).wf(),
            is_key(key@),
            is_candidates(value@),
        ensures
            final(self).wf(),
            res matches Some(v) ==> v@ == value@,
            (match assigned(old(self)@, index_of(key@), value@) {
                Some(b) => res is Some && final(self)@ == b,
                None => res is None,
            }),
            value@.len() == 0 ==> final(self)@ == old(self)@,
            value@.len() == 1 && !old(self)@[index_of(key@)].contains(value@[0]) ==> res is None
                && final(self)@ == old(self)@,
            res is Some && value@.len() == 1 ==> ({
                &&& final(self)@[index_of(key@)] == value@
                &&& forall|q: int|
                    is_peer(index_of(key@), q) ==> !(#[trigger] final(self)@[q]).contains(value@[0])
            }),
            res is Some && value@.len() == 1 && consistent(old(self)@) ==> consistent(final(self)@),
        decreases total(old(self)@.update(index_of(key@), value@)),
    {
        let ghost before = self@;
        let at = key_index(key);
        let n = value.unicode_len();
        if n == 0 {
            return None;
        }
        if n == 1 {
            let held = position(self.cells[at].1.values.as_str(), value.get_char(0));
            if held.is_none() {
                return None;
            }
        }
        self.cells[at].1.values = String::from_str(value);
        let ghost start = self@;
        assert(start =~= before.update(at as int, value@));
        assert(self.cached());
        assert(board_wf(start)) by {
            assert forall|t: int| 0 <= t < 81 implies is_candidates(#[trigger] start[t])
                && start[t].len() >= 1 by {
                if t != at {
                    assert(start[t] == before[t]);
                }
            }
        }
        if n > 1 {
            return Some(String::from_str(value));
        }
        let digit = value.get_char(0);
        let peers = self.cells[at].1.peers.clone();
        proof {
            assert(before[at as int].contains(digit));
            assert(value@ =~= seq![digit]);
            lemma_sweep_start(start, at as int, digit);
            lemma_peers(at as int, 0);
            assert(peers.deep_view() =~= peer_keys(at as int));
            assert(peer_keys(at as int).len() == peers_of(at as int).len());
            assert(peers@.len() == peers.deep_view().len());
        }
        let mut k: usize = 0;
        while k < peers.len()
            invariant
                k <= 20,
                at < 81,
                peers@.len() == 20,
                peers.deep_view() == peer_keys(at as int),
                value@ == seq![digit],
                before == old(self)@,
                before[at as int].contains(digit),
                start == before.update(at as int, value@),
                board_wf(start),
                index_of(key@) == at,
                self.cached(),
                sweeping(start, at as int, digit, self@, k as int),
            decreases 20 - k,
        {
            let ghost cur = self@;
            let ghost qq = peers_of(at as int)[k as int];
            proof {
                lemma_peer_at(at as int, k as int);
                lemma_key_index(qq);
                assert(peers.deep_view()[k as int] == key_of(qq));
                assert(peers@[k as int]@ == key_of(qq));
            }
            let peer_key = peers[k].as_str();
            let q = key_index(peer_key);
            assert(q == qq);
            let found = position(self.cells[q].1.values.as_str(), digit);
            match found {
                None => {
                    proof {
                        lemma_sweep_skip(start, at as int, digit, cur, k as int);
                    }
                },
                Some(i) => {
                    let rest = without(self.cells[q].1.values.as_str(), i);
                    proof {
                        lemma_sweep_narrow(start, at as int, digit, cur, k as int, i as int);
                    }
                    match self.assign(peer_key, rest.as_str()) {
                        None => {
                            proof {
                                lemma_sweep_fail(start, at as int, digit, cur, k as int, i as int);
                            }
                            return None;
                        },
                        Some(_) => {
                            proof {
                                lemma_sweep_step(
                                    start,
                                    at as int,
                                    digit,
                                    cur,
                                    k as int,
                                    i as int,
                                    self@,
                                );
                            }
                        },
                    }
                },
            }
            k += 1;
        }
        proof {
            lemma_sweep_end(start, at as int, digit, self@);
            lemma_given(before, at as int, digit);
            if consistent(before) {
                lemma_given_consistent(before, at as int, digit);
            }
        }
        Some(String::from_str(value))
    }
}

impl Clone for SudokuField {
    /// A board with the same cells.
    fn clone(&self) -> (copy: Self)
        ensures
            copy@ == self@,
            self.wf() ==> copy.wf(),
    {
        let mut cells: Vec<(String, Cell)> = Vec::new();
        let n = self.cells.len();
        let mut i: usize = 0;
        while i < n
            invariant
                n == self.cells@.len(),
                i <= n,
                cells@.len() == i,
                forall|t: int|
                    0 <= t < i ==> {
                        &&& (#[trigger] cells@[t]).0@ == self.cells@[t].0@
                        &&& cells@[t].1.values@ == self.cells@[t].1.values@
                        &&& cells@[t].1.units.deep_view() == self.cells@[t].1.units.deep_view()
                        &&& cells@[t].1.peers.deep_view() == self.cells@[t].1.peers.deep_view()
                    },
            decreases n - i,
        {
            cells.push((self.cells[i].0.clone(), self.cells[i].1.clone()));
            i += 1;
        }
        let copy = SudokuField { cells };
        assert(copy@ =~= self@);
        copy
    }
}

} // verus!
