//! Coordinates and the fixed 9x9 topology.
//!
//! A coordinate is a two-character key: a row letter `A`..`I` followed by a
//! column digit `1`..`9`.  Internally the 81 coordinates are numbered in
//! row-major order, `A1` being 0 and `I9` being 80.

use vstd::prelude::*;
use vstd::string::*;

verus! {

/// The row letters, top to bottom.
pub const ROWS: &'static str = "ABCDEFGHI";

/// The column digits, left to right.  They are also the nine values a cell can take.
pub const COLUMNS: &'static str = "123456789";

/// The letter of row `r`, rows numbered from 0.
pub open spec fn row_char(r: int) -> char {
    (('A' as int) + r) as char
}

/// The digit of column `c`, columns numbered from 0.
pub open spec fn col_char(c: int) -> char {
    (('1' as int) + c) as char
}

/// The key of the cell with the given row-major index.
pub open spec fn key_of(i: int) -> Seq<char> {
    seq![row_char(i / 9), col_char(i % 9)]
}

/// Whether a character sequence names one of the 81 cells.
pub open spec fn is_key(s: Seq<char>) -> bool {
    &&& s.len() == 2
    &&& 'A' <= s[0] && s[0] <= 'I'
    &&& '1' <= s[1] && s[1] <= '9'
}

/// The row-major index of a key.
pub open spec fn index_of(s: Seq<char>) -> int {
    (s[0] as int - 'A' as int) * 9 + (s[1] as int - '1' as int)
}

/// The keys of a sequence of cell indices.
pub open spec fn keys_of(cells: Seq<int>) -> Seq<Seq<char>> {
    Seq::new(cells.len(), |j: int| key_of(cells[j]))
}

/// Two keys in lexicographic order.
pub open spec fn key_lt(a: Seq<char>, b: Seq<char>) -> bool {
    a[0] < b[0] || (a[0] == b[0] && a[1] < b[1])
}

/// The key of a cell names that cell.
pub proof fn lemma_key_index(i: int)
    requires
        0 <= i < 81,
    ensures
        is_key(key_of(i)),
        index_of(key_of(i)) == i,
{
}

/// A key is the key of the cell that it names.
pub proof fn lemma_index_key(s: Seq<char>)
    requires
        is_key(s),
    ensures
        0 <= index_of(s) < 81,
        key_of(index_of(s)) == s,
{
    assert(key_of(index_of(s)) =~= s);
}

/// The lexicographic order of keys is the order of their cells, and
/// different cells have different keys.
pub proof fn lemma_key_order(i: int, j: int)
    requires
        0 <= i < 81,
        0 <= j < 81,
    ensures
        key_lt(key_of(i), key_of(j)) <==> i < j,
        key_of(i) == key_of(j) <==> i == j,
{
    lemma_key_index(i);
    lemma_key_index(j);
}

/// The row of a cell, 0 to 8.
pub open spec fn row_of(i: int) -> int {
    i / 9
}

/// The column of a cell, 0 to 8.
pub open spec fn col_of(i: int) -> int {
    i % 9
}

/// The 3x3 box a cell falls in, boxes numbered in row-major order.
pub open spec fn box_of(i: int) -> int {
    (i / 27) * 3 + (i % 9) / 3
}

/// Two distinct cells that share a row, a column or a box.
pub open spec fn is_peer(a: int, b: int) -> bool {
    &&& 0 <= a < 81
    &&& 0 <= b < 81
    &&& a != b
    &&& (row_of(a) == row_of(b) || col_of(a) == col_of(b) || box_of(a) == box_of(b))
}

/// The `j`-th cell of unit `u` of cell `i`.  Unit 0 runs through all nine rows
/// in the cell's column, unit 1 through all nine columns in the cell's row,
/// unit 2 through the cell's 3x3 box, rows first.
pub open spec fn unit_cell(i: int, u: int, j: int) -> int {
    if u == 0 {
        j * 9 + col_of(i)
    } else if u == 1 {
        row_of(i) * 9 + j
    } else {
        (3 * (row_of(i) / 3) + j / 3) * 9 + 3 * (col_of(i) / 3) + j % 3
    }
}

/// The nine cells of unit `u` of cell `i`.
pub open spec fn unit_of(i: int, u: int) -> Seq<int> {
    Seq::new(9, |j: int| unit_cell(i, u, j))
}

/// The three units of a cell, as keys.
pub open spec fn unit_keys(i: int) -> Seq<Seq<Seq<char>>> {
    Seq::new(3, |u: int| keys_of(unit_of(i, u)))
}

/// The indices below `n` that are marked, in ascending order.
pub open spec fn picked(marks: Seq<bool>, n: int) -> Seq<int>
    decreases n,
{
    if n <= 0 {
        Seq::empty()
    } else if marks[n - 1] {
        picked(marks, n - 1).push(n - 1)
    } else {
        picked(marks, n - 1)
    }
}

/// For each cell, whether it is a peer of `i`.
pub open spec fn peer_marks(i: int) -> Seq<bool> {
    Seq::new(81, |k: int| is_peer(i, k))
}

/// The peers of a cell in ascending order.
pub open spec fn peers_of(i: int) -> Seq<int> {
    picked(peer_marks(i), 81)
}

/// The peers of a cell, as keys.
pub open spec fn peer_keys(i: int) -> Seq<Seq<char>> {
    keys_of(peers_of(i))
}

/// `picked` lists exactly the marked indices, each once, in ascending order.
pub proof fn lemma_picked(marks: Seq<bool>, n: int)
    requires
        0 <= n <= marks.len(),
    ensures
        picked(marks, n).len() <= n,
        forall|j: int|
            0 <= j < picked(marks, n).len() ==> 0 <= #[trigger] picked(marks, n)[j] < n
                && marks[picked(marks, n)[j]],
        forall|j: int, k: int|
            0 <= j < k < picked(marks, n).len() ==> #[trigger] picked(marks, n)[j]
                < #[trigger] picked(marks, n)[k],
        forall|k: int| 0 <= k < n && marks[k] ==> #[trigger] picked(marks, n).contains(k),
    decreases n,
{
    if n > 0 {
        lemma_picked(marks, n - 1);
        let prev = picked(marks, n - 1);
        let cur = picked(marks, n);
        assert forall|k: int| 0 <= k < n && marks[k] implies #[trigger] cur.contains(k) by {
            if k < n - 1 {
                assert(prev.contains(k));
                let j = choose|j: int| 0 <= j < prev.len() && prev[j] == k;
                assert(cur[j] == k);
            } else {
                assert(cur[cur.len() - 1] == k);
            }
        }
    }
}

/// A cell in row `r` and column `c` has that row, that column, and the box
/// of their thirds.
proof fn lemma_row_col(r: int, c: int)
    requires
        0 <= r < 9,
        0 <= c < 9,
    ensures
        0 <= 9 * r + c < 81,
        row_of(9 * r + c) == r,
        col_of(9 * r + c) == c,
        box_of(9 * r + c) == (r / 3) * 3 + c / 3,
{
    let i = 9 * r + c;
    assert(i / 9 == r && i % 9 == c);
    assert(i / 27 == r / 3);
}

/// When two cells, given by row and column, are peers.
proof fn lemma_peer_by_row_col(r1: int, c1: int, r2: int, c2: int)
    requires
        0 <= r1 < 9,
        0 <= c1 < 9,
        0 <= r2 < 9,
        0 <= c2 < 9,
    ensures
        is_peer(9 * r1 + c1, 9 * r2 + c2) == ((r1 != r2 || c1 != c2) && (r1 == r2 || c1 == c2 || (r1
            / 3 == r2 / 3 && c1 / 3 == c2 / 3))),
{
    lemma_row_col(r1, c1);
    lemma_row_col(r2, c2);
}

/// The row and the column of the `j`-th cell of unit `u` of cell `i`.
proof fn lemma_unit_cell_row_col(i: int, u: int, j: int) -> (at: (int, int))
    requires
        0 <= i < 81,
        0 <= u < 3,
        0 <= j < 9,
    ensures
        0 <= at.0 < 9,
        0 <= at.1 < 9,
        unit_cell(i, u, j) == 9 * at.0 + at.1,
        u == 0 ==> at.0 == j && at.1 == i % 9,
        u == 1 ==> at.0 == i / 9 && at.1 == j,
        u == 2 ==> at.0 / 3 == (i / 9) / 3 && at.1 / 3 == (i % 9) / 3 && at.0 % 3 == j / 3 && at.1
            % 3 == j % 3,
{
    let row = i / 9;
    let col = i % 9;
    if u == 0 {
        (j, col)
    } else if u == 1 {
        (row, j)
    } else {
        (3 * (row / 3) + j / 3, 3 * (col / 3) + j % 3)
    }
}

/// Which cells of row `r` are peers of `i`.
proof fn lemma_peer_in_row(i: int, r: int, j: int)
    requires
        0 <= i < 81,
        0 <= r < 9,
        0 <= j < 9,
    ensures
        is_peer(i, 9 * r + j) == (if r == i / 9 {
            j != i % 9
        } else {
            j == i % 9 || (r / 3 == i / 27 && j / 3 == (i % 9) / 3)
        }),
{
    lemma_peer_by_row_col(i / 9, i % 9, r, j);
    assert(i == 9 * (i / 9) + i % 9);
    assert(i / 27 == (i / 9) / 3);
}

/// 1 for true, 0 for false.
spec fn one_if(b: bool) -> int {
    if b {
        1
    } else {
        0
    }
}

/// One more index picks one more cell exactly where it is marked.
proof fn lemma_picked_step(marks: Seq<bool>, n: int)
    requires
        0 <= n,
    ensures
        picked(marks, n + 1).len() == picked(marks, n).len() + one_if(marks[n]),
{
}

/// How many peers of `i` lie in row `r`: eight in its own row, three in
/// another row of its band, one in any other row.
proof fn lemma_peer_row_count(i: int, r: int)
    requires
        0 <= i < 81,
        0 <= r < 9,
    ensures
        picked(peer_marks(i), 9 * r + 9).len() == picked(peer_marks(i), 9 * r).len() + (if r == i
            / 9 {
            8int
        } else if r / 3 == i / 27 {
            3int
        } else {
            1int
        }),
{
    let m = peer_marks(i);
    let b = 9 * r;
    let col = i % 9;
    let e0 = one_if(m[b + 0]);
    let e1 = one_if(m[b + 1]);
    let e2 = one_if(m[b + 2]);
    let e3 = one_if(m[b + 3]);
    let e4 = one_if(m[b + 4]);
    let e5 = one_if(m[b + 5]);
    let e6 = one_if(m[b + 6]);
    let e7 = one_if(m[b + 7]);
    let e8 = one_if(m[b + 8]);
    lemma_peer_in_row(i, r, 0);
    lemma_peer_in_row(i, r, 1);
    lemma_peer_in_row(i, r, 2);
    lemma_peer_in_row(i, r, 3);
    lemma_peer_in_row(i, r, 4);
    lemma_peer_in_row(i, r, 5);
    lemma_peer_in_row(i, r, 6);
    lemma_peer_in_row(i, r, 7);
    lemma_peer_in_row(i, r, 8);
    lemma_picked_step(m, b + 0);
    lemma_picked_step(m, b + 1);
    lemma_picked_step(m, b + 2);
    lemma_picked_step(m, b + 3);
    lemma_picked_step(m, b + 4);
    lemma_picked_step(m, b + 5);
    lemma_picked_step(m, b + 6);
    lemma_picked_step(m, b + 7);
    lemma_picked_step(m, b + 8);
    assert(picked(m, b + 9).len() == picked(m, b).len() + e0 + e1 + e2 + e3 + e4 + e5 + e6 + e7
        + e8);
    if r == i / 9 {
        assert(e0 + e1 + e2 + e3 + e4 + e5 + e6 + e7 + e8 == 8);
    } else if r / 3 == i / 27 {
        assert(e0 + e1 + e2 == (if col / 3 == 0 { 3int } else { 0int }));
        assert(e3 + e4 + e5 == (if col / 3 == 1 { 3int } else { 0int }));
        assert(e6 + e7 + e8 == (if col / 3 == 2 { 3int } else { 0int }));
    } else {
        assert(e0 + e1 + e2 + e3 + e4 + e5 + e6 + e7 + e8 == 1);
    }
}

/// Every cell has exactly 20 peers.
pub proof fn lemma_peer_count(i: int)
    requires
        0 <= i < 81,
    ensures
        peers_of(i).len() == 20,
{
    lemma_peer_row_count(i, 0);
    lemma_peer_row_count(i, 1);
    lemma_peer_row_count(i, 2);
    lemma_peer_row_count(i, 3);
    lemma_peer_row_count(i, 4);
    lemma_peer_row_count(i, 5);
    lemma_peer_row_count(i, 6);
    lemma_peer_row_count(i, 7);
    lemma_peer_row_count(i, 8);
    assert(picked(peer_marks(i), 0).len() == 0);
}

/// The peer list of a cell holds exactly its peers, and being a peer is symmetric.
pub proof fn lemma_peers(a: int, b: int)
    requires
        0 <= a < 81,
    ensures
        peers_of(a).len() == 20,
        peers_of(a).contains(b) <==> is_peer(a, b),
        is_peer(a, b) <==> is_peer(b, a),
{
    lemma_peer_count(a);
    lemma_picked(peer_marks(a), 81);
    if peers_of(a).contains(b) {
        let j = choose|j: int| 0 <= j < peers_of(a).len() && peers_of(a)[j] == b;
        assert(peer_marks(a)[peers_of(a)[j]]);
    }
    if is_peer(a, b) {
        assert(peer_marks(a)[b]);
    }
}

/// A cell of a unit of `i` is `i` itself or one of its peers.
pub proof fn lemma_unit_cell_is_peer(i: int, u: int, j: int)
    requires
        0 <= i < 81,
        0 <= u < 3,
        0 <= j < 9,
    ensures
        0 <= unit_cell(i, u, j) < 81,
        unit_cell(i, u, j) == i || is_peer(i, unit_cell(i, u, j)),
{
    let at = lemma_unit_cell_row_col(i, u, j);
    lemma_peer_by_row_col(i / 9, i % 9, at.0, at.1);
    assert(i == 9 * (i / 9) + i % 9);
}

/// Every peer of `i` is a cell of one of the units of `i`.
pub proof fn lemma_peer_in_unit(i: int, k: int) -> (at: (int, int))
    requires
        is_peer(i, k),
    ensures
        0 <= at.0 < 3,
        0 <= at.1 < 9,
        unit_cell(i, at.0, at.1) == k,
{
    let row = i / 9;
    let col = i % 9;
    let kr = k / 9;
    let kc = k % 9;
    assert(i == 9 * row + col);
    assert(k == 9 * kr + kc);
    lemma_peer_by_row_col(row, col, kr, kc);
    if col == kc {
        (0int, kr)
    } else if row == kr {
        (1int, kc)
    } else {
        let j = (kr % 3) * 3 + kc % 3;
        assert(j / 3 == kr % 3 && j % 3 == kc % 3);
        assert(3 * (row / 3) + j / 3 == kr);
        assert(3 * (col / 3) + j % 3 == kc);
        (2int, j)
    }
}

/// Two different cells of one unit are peers.
pub proof fn lemma_unit_cells_are_peers(i: int, u: int, j: int, k: int)
    requires
        0 <= i < 81,
        0 <= u < 3,
        0 <= j < 9,
        0 <= k < 9,
        j != k,
    ensures
        is_peer(unit_cell(i, u, j), unit_cell(i, u, k)),
{
    let a = lemma_unit_cell_row_col(i, u, j);
    let b = lemma_unit_cell_row_col(i, u, k);
    lemma_peer_by_row_col(a.0, a.1, b.0, b.1);
    if u == 2 {
        assert(j / 3 != k / 3 || j % 3 != k % 3);
        assert(a.0 == 3 * (a.0 / 3) + a.0 % 3 && b.0 == 3 * (b.0 / 3) + b.0 % 3);
        assert(a.1 == 3 * (a.1 / 3) + a.1 % 3 && b.1 == 3 * (b.1 / 3) + b.1 % 3);
    }
}

/// Whether a text names a cell.
pub fn is_coordinate(key: &str) -> (b: bool)
    ensures
        b == is_key(key@),
{
    if key.unicode_len() != 2 {
        return false;
    }
    let r = key.get_char(0);
    let c = key.get_char(1);
    'A' <= r && r <= 'I' && '1' <= c && c <= '9'
}

/// The row-major index of the cell that a key names.
pub fn key_index(key: &str) -> (i: usize)
    requires
        is_key(key@),
    ensures
        i as int == index_of(key@),
        i < 81,
{
    let r = key.get_char(0);
    let c = key.get_char(1);
    let row = (r as u32 - 'A' as u32) as usize;
    let col = (c as u32 - '1' as u32) as usize;
    row * 9 + col
}

/// The key of the cell with the given row-major index.
pub fn make_key(i: usize) -> (key: String)
    requires
        i < 81,
    ensures
        key@ == key_of(i as int),
{
    proof {
        reveal_strlit("ABCDEFGHI");
        reveal_strlit("123456789");
    }
    let row = i / 9;
    let col = i % 9;
    let mut key = String::from_str(ROWS.substring_ascii(row, row + 1));
    key.append(COLUMNS.substring_ascii(col, col + 1));
    assert(key@ =~= key_of(i as int));
    key
}

} // verus!
