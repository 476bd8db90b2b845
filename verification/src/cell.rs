//! One cell of the board: its candidate set and its cached topology.

use vstd::prelude::*;
use vstd::string::*;
use crate::coord::{
    index_of, is_key, is_peer, key_index, key_lt, key_of, keys_of, make_key, peer_keys,
    peer_marks, picked, unit_cell, unit_keys, unit_of, lemma_index_key, lemma_key_order,
    lemma_peer_count, lemma_peer_in_unit, lemma_picked, lemma_unit_cell_is_peer, COLUMNS,
};
use crate::digits::{all_digits, lemma_all_digits};

verus! {

/// A cell of the board.
pub struct Cell {
    /// The digits still possible here, in ascending order.
    pub values: String,
    /// The keys of the cell's three units: its column through all rows, its
    /// row through all columns, and its 3x3 box.
    pub units: [Vec<String>; 3],
    /// The keys of the cell's peers, in ascending order.
    pub peers: Vec<String>,
}

/// Whether `key` occurs in one of the unit lists before position `j` of list `u`.
pub open spec fn listed_before(units: Seq<Seq<Seq<char>>>, u: int, j: int, key: Seq<char>) -> bool {
    exists|a: int, b: int|
        0 <= a < units.len() && 0 <= b < units[a].len() && (a < u || (a == u && b < j))
            && #[trigger] units[a][b] == key
}

/// Whether `key` occurs in one of the unit lists.
pub open spec fn listed(units: Seq<Seq<Seq<char>>>, key: Seq<char>) -> bool {
    listed_before(units, units.len() as int, 0, key)
}

/// For each cell index, whether it is listed in `units` and is not `cell`.
pub open spec fn unit_marks(cell: int, units: Seq<Seq<Seq<char>>>) -> Seq<bool> {
    Seq::new(81, |k: int| k != cell && listed(units, key_of(k)))
}

/// The cells listed in a cell's own units, the cell left out, are its peers.
pub proof fn lemma_unit_marks(i: int)
    requires
        0 <= i < 81,
    ensures
        unit_marks(i, unit_keys(i)) == peer_marks(i),
{
    let units = unit_keys(i);
    assert forall|k: int| 0 <= k < 81 implies (k != i && listed(units, key_of(k))) == is_peer(
        i,
        k,
    ) by {
        if k != i && listed(units, key_of(k)) {
            let (a, b) = choose|a: int, b: int|
                0 <= a < units.len() && 0 <= b < units[a].len() && (a < units.len() || (a
                    == units.len() && b < 0)) && #[trigger] units[a][b] == key_of(k);
            let c = unit_cell(i, a, b);
            assert(units[a][b] == key_of(c));
            lemma_unit_cell_is_peer(i, a, b);
            lemma_key_order(c, k);
        }
        if is_peer(i, k) {
            let (a, b) = lemma_peer_in_unit(i, k);
            assert(units[a][b] == key_of(k));
        }
    }
    assert(unit_marks(i, units) =~= peer_marks(i));
}

/// The `j`-th cell of unit `u` of cell `i`.
fn unit_cell_at(i: usize, u: usize, j: usize) -> (k: usize)
    requires
        i < 81,
        u < 3,
        j < 9,
    ensures
        k as int == unit_cell(i as int, u as int, j as int),
        k < 81,
{
    let row = i / 9;
    let col = i % 9;
    if u == 0 {
        j * 9 + col
    } else if u == 1 {
        row * 9 + j
    } else {
        (3 * (row / 3) + j / 3) * 9 + 3 * (col / 3) + j % 3
    }
}

/// The keys of unit `u` of cell `i`.
fn unit_list(i: usize, u: usize) -> (unit: Vec<String>)
    requires
        i < 81,
        u < 3,
    ensures
        unit.deep_view() == keys_of(unit_of(i as int, u as int)),
{
    let mut unit: Vec<String> = Vec::new();
    let mut j: usize = 0;
    while j < 9
        invariant
            i < 81,
            u < 3,
            j <= 9,
            unit@.len() == j,
            forall|t: int|
                0 <= t < j ==> (#[trigger] unit@[t])@ == key_of(
                    unit_cell(i as int, u as int, t),
                ),
        decreases 9 - j,
    {
        let k = unit_cell_at(i, u, j);
        unit.push(make_key(k));
        j += 1;
    }
    assert(unit.deep_view() =~= keys_of(unit_of(i as int, u as int)));
    unit
}

impl Cell {
    /// A cell with all nine candidates and the topology of the coordinate `key`.
    pub fn new(key: &str) -> (cell: Cell)
        requires
            is_key(key@),
        ensures
            cell.values@ == all_digits(),
            cell.units.deep_view() == unit_keys(index_of(key@)),
            cell.peers.deep_view() == peer_keys(index_of(key@)),
            cell.peers@.len() == 20,
            forall|a: int, b: int|
                0 <= a < b < 20 ==> key_lt(
                    #[trigger] cell.peers.deep_view()[a],
                    #[trigger] cell.peers.deep_view()[b],
                ),
    {
        let units = Cell::find_units(key);
        let peers = Cell::find_peers(key, &units);
        proof {
            let i = index_of(key@);
            lemma_index_key(key@);
            lemma_unit_marks(i);
            lemma_peer_count(i);
            lemma_all_digits();
            assert(peers.deep_view().len() == peers@.len());
        }
        Cell { values: String::from_str(COLUMNS), units, peers }
    }

    /// The three units of a coordinate: the cells of its column through all
    /// nine rows, the cells of its row through all nine columns, and the
    /// cells of its 3x3 box.
    pub fn find_units(cell: &str) -> (units: [Vec<String>; 3])
        requires
            is_key(cell@),
        ensures
            units.deep_view() == unit_keys(index_of(cell@)),
    {
        let i = key_index(cell);
        let row_unit = unit_list(i, 0);
        let column_unit = unit_list(i, 1);
        let square_unit = unit_list(i, 2);
        let units = [row_unit, column_unit, square_unit];
        assert(units.deep_view() =~= unit_keys(index_of(cell@)));
        units
    }

    /// The peers of a coordinate: every coordinate listed in `units` but
    /// `cell` itself, each once, in ascending order.
    pub fn find_peers(cell: &str, units: &[Vec<String>; 3]) -> (peers: Vec<String>)
        requires
            is_key(cell@),
            forall|u: int, j: int|
                0 <= u < 3 && 0 <= j < units.deep_view()[u].len() ==> is_key(
                    #[trigger] units.deep_view()[u][j],
                ),
        ensures
            peers.deep_view() == keys_of(
                picked(unit_marks(index_of(cell@), units.deep_view()), 81),
            ),
            forall|a: int, b: int|
                0 <= a < b < peers@.len() ==> key_lt(
                    #[trigger] peers.deep_view()[a],
                    #[trigger] peers.deep_view()[b],
                ),
    {
        let ghost lists = units.deep_view();
        let c = key_index(cell);
        let mut marks: Vec<bool> = vec![false; 81];
        let mut u: usize = 0;
        while u < 3
            invariant
                u <= 3,
                lists == units.deep_view(),
                marks@.len() == 81,
                forall|a: int, b: int|
                    0 <= a < 3 && 0 <= b < lists[a].len() ==> is_key(#[trigger] lists[a][b]),
                forall|k: int|
                    0 <= k < 81 ==> #[trigger] marks@[k] == listed_before(
                        lists,
                        u as int,
                        0,
                        key_of(k),
                    ),
            decreases 3 - u,
        {
            let unit = &units[u];
            let n = unit.len();
            let mut j: usize = 0;
            assert(lists[u as int].len() == n);
            while j < n
                invariant
                    u < 3,
                    j <= n,
                    n == unit@.len(),
                    *unit == units@[u as int],
                    lists == units.deep_view(),
                    lists[u as int].len() == n,
                    marks@.len() == 81,
                    forall|a: int, b: int|
                        0 <= a < 3 && 0 <= b < lists[a].len() ==> is_key(#[trigger] lists[a][b]),
                    forall|k: int|
                        0 <= k < 81 ==> #[trigger] marks@[k] == listed_before(
                            lists,
                            u as int,
                            j as int,
                            key_of(k),
                        ),
                decreases n - j,
            {
                let ghost before = marks@;
                assert(unit@[j as int]@ == lists[u as int][j as int]);
                assert(is_key(lists[u as int][j as int]));
                let k = key_index(unit[j].as_str());
                marks[k] = true;
                proof {
                    lemma_index_key(lists[u as int][j as int]);
                    assert forall|x: int| 0 <= x < 81 implies #[trigger] marks@[x] == listed_before(
                        lists,
                        u as int,
                        j as int + 1,
                        key_of(x),
                    ) by {
                        lemma_key_order(x, k as int);
                        if listed_before(lists, u as int, j as int + 1, key_of(x)) {
                            let (a, b) = choose|a: int, b: int|
                                0 <= a < lists.len() && 0 <= b < lists[a].len() && (a < u || (a
                                    == u && b < j + 1)) && #[trigger] lists[a][b] == key_of(x);
                            if a == u && b == j {
                            } else {
                                assert(listed_before(lists, u as int, j as int, key_of(x)));
                            }
                        }
                        if before[x] {
                            assert(listed_before(lists, u as int, j as int, key_of(x)));
                        }
                        if x == k {
                            assert(lists[u as int][j as int] == key_of(x));
                        }
                    }
                }
                j += 1;
            }
            proof {
                assert forall|x: int| 0 <= x < 81 implies listed_before(
                    lists,
                    u as int,
                    n as int,
                    key_of(x),
                ) == listed_before(lists, u as int + 1, 0, key_of(x)) by {
                    if listed_before(lists, u as int, n as int, key_of(x)) {
                        let (a, b) = choose|a: int, b: int|
                            0 <= a < lists.len() && 0 <= b < lists[a].len() && (a < u || (a == u
                                && b < n)) && #[trigger] lists[a][b] == key_of(x);
                        assert(a < u + 1);
                    }
                    if listed_before(lists, u as int + 1, 0, key_of(x)) {
                        let (a, b) = choose|a: int, b: int|
                            0 <= a < lists.len() && 0 <= b < lists[a].len() && (a < u + 1 || (a
                                == u + 1 && b < 0)) && #[trigger] lists[a][b] == key_of(x);
                        assert(a < u || (a == u && b < n));
                    }
                }
            }
            u += 1;
        }
        marks[c] = false;
        assert(marks@ =~= unit_marks(index_of(cell@), lists));
        let mut peers: Vec<String> = Vec::new();
        let mut k: usize = 0;
        while k < 81
            invariant
                k <= 81,
                marks@.len() == 81,
                peers@.len() == picked(marks@, k as int).len(),
                forall|t: int|
                    0 <= t < peers@.len() ==> (#[trigger] peers@[t])@ == key_of(
                        picked(marks@, k as int)[t],
                    ),
            decreases 81 - k,
        {
            if marks[k] {
                peers.push(make_key(k));
            }
            k += 1;
        }
        assert(peers.deep_view() =~= keys_of(picked(marks@, 81)));
        proof {
            let cells = picked(marks@, 81);
            lemma_picked(marks@, 81);
            assert forall|a: int, b: int| 0 <= a < b < peers@.len() implies key_lt(
                #[trigger] peers.deep_view()[a],
                #[trigger] peers.deep_view()[b],
            ) by {
                assert(cells[a] < cells[b]);
                lemma_key_order(cells[a], cells[b]);
            }
        }
        peers
    }
}

impl Clone for Cell {
    /// A cell with the same candidates, units and peers.
    fn clone(&self) -> (copy: Self)
        ensures
            copy.values@ == self.values@,
            copy.units.deep_view() == self.units.deep_view(),
            copy.peers.deep_view() == self.peers.deep_view(),
    {
        let units = [self.units[0].clone(), self.units[1].clone(), self.units[2].clone()];
        let peers = self.peers.clone();
        let copy = Cell { values: self.values.clone(), units, peers };
        assert(copy.units.deep_view() =~~= self.units.deep_view());
        assert(copy.peers.deep_view() =~~= self.peers.deep_view());
        copy
    }
}

} // verus!
