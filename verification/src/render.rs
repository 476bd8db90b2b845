//! Writing a board out as text.
//!
//! The board is written row by row.  Every column is as wide as its widest
//! candidate set and each candidate set stands in the middle of its column.
//! The three bands of boxes are parted by rules, the three stacks by bars.

use vstd::prelude::*;
use vstd::string::*;
use crate::board::Board;
use crate::field::SudokuField;

verus! {

/// The text `piece` written `n` times.
pub open spec fn repeated(piece: Seq<char>, n: int) -> Seq<char>
    decreases n,
{
    if n <= 0 {
        Seq::empty()
    } else {
        repeated(piece, n - 1) + piece
    }
}

/// The size of the largest candidate set in the first `rows` rows of a column.
pub open spec fn column_width_upto(b: Board, col: int, rows: int) -> int
    decreases rows,
{
    if rows <= 0 {
        0
    } else {
        let above = column_width_upto(b, col, rows - 1);
        let here = b[(rows - 1) * 9 + col].len() as int;
        if here > above {
            here
        } else {
            above
        }
    }
}

/// The size of the largest candidate set in a column.
pub open spec fn column_width(b: Board, col: int) -> int {
    column_width_upto(b, col, 9)
}

/// A text in the middle of a field of the given width: half of the spare
/// room, rounded down, goes in front of it and the rest behind it.
pub open spec fn centered(v: Seq<char>, width: int) -> Seq<char> {
    let spare = width - v.len();
    repeated(" "@, spare / 2) + v + repeated(" "@, spare - spare / 2)
}

/// What parts a column from the next in a row of cells.
pub open spec fn gap(col: int) -> Seq<char> {
    if col == 2 || col == 5 {
        " | "@
    } else if col == 8 {
        ""@
    } else {
        "  "@
    }
}

/// What parts a column from the next in a rule.
pub open spec fn joint(col: int) -> Seq<char> {
    if col == 2 || col == 5 {
        "-+-"@
    } else if col == 8 {
        ""@
    } else {
        "--"@
    }
}

/// The first `cols` columns of a row of cells.
pub open spec fn row_upto(b: Board, row: int, cols: int) -> Seq<char>
    decreases cols,
{
    if cols <= 0 {
        " "@
    } else {
        row_upto(b, row, cols - 1) + centered(b[row * 9 + cols - 1], column_width(b, cols - 1))
            + gap(cols - 1)
    }
}

/// The first `cols` columns of a rule.
pub open spec fn rule_upto(b: Board, cols: int) -> Seq<char>
    decreases cols,
{
    if cols <= 0 {
        "-"@
    } else {
        rule_upto(b, cols - 1) + repeated("-"@, column_width(b, cols - 1)) + joint(cols - 1)
    }
}

/// The first `rows` rows of the board, each on a line of its own, with a
/// rule after the third and after the sixth.
pub open spec fn grid_upto(b: Board, rows: int) -> Seq<char>
    decreases rows,
{
    if rows <= 0 {
        Seq::empty()
    } else {
        let lines = grid_upto(b, rows - 1) + row_upto(b, rows - 1, 9) + "\n"@;
        if rows == 3 || rows == 6 {
            lines + rule_upto(b, 9) + "\n"@
        } else {
            lines
        }
    }
}

/// The board written out.
pub open spec fn grid_text(b: Board) -> Seq<char> {
    grid_upto(b, 9)
}

/// A column is at least as wide as each of its candidate sets.
proof fn lemma_column_width(b: Board, col: int, rows: int, row: int)
    requires
        0 <= row < rows,
    ensures
        column_width_upto(b, col, rows) >= b[row * 9 + col].len(),
    decreases rows,
{
    if row < rows - 1 {
        lemma_column_width(b, col, rows - 1, row);
    }
}

/// Appends a text `n` times.
fn append_repeated(text: &mut String, piece: &str, n: usize)
    ensures
        final(text)@ == old(text)@ + repeated(piece@, n as int),
{
    let mut k: usize = 0;
    assert(text@ =~= old(text)@ + repeated(piece@, 0));
    while k < n
        invariant
            k <= n,
            text@ == old(text)@ + repeated(piece@, k as int),
        decreases n - k,
    {
        text.append(piece);
        k += 1;
        assert(text@ =~= old(text)@ + repeated(piece@, k as int));
    }
}

/// What parts a column from the next in a row of cells.
fn gap_of(col: usize) -> (text: &'static str)
    ensures
        text@ == gap(col as int),
{
    if col == 2 || col == 5 {
        " | "
    } else if col == 8 {
        ""
    } else {
        "  "
    }
}

/// What parts a column from the next in a rule.
fn joint_of(col: usize) -> (text: &'static str)
    ensures
        text@ == joint(col as int),
{
    if col == 2 || col == 5 {
        "-+-"
    } else if col == 8 {
        ""
    } else {
        "--"
    }
}

impl SudokuField {
    /// The width of each of the nine columns.
    fn column_widths(&self) -> (widths: Vec<usize>)
        requires
            self.wf(),
        ensures
            widths@.len() == 9,
            forall|col: int| 0 <= col < 9 ==> #[trigger] widths@[col] == column_width(self@, col),
    {
        let mut widths: Vec<usize> = Vec::new();
        let mut col: usize = 0;
        while col < 9
            invariant
                col <= 9,
                self.wf(),
                widths@.len() == col,
                forall|c: int| 0 <= c < col ==> #[trigger] widths@[c] == column_width(self@, c),
            decreases 9 - col,
        {
            let mut width: usize = 0;
            let mut row: usize = 0;
            while row < 9
                invariant
                    row <= 9,
                    col < 9,
                    self.wf(),
                    width == column_width_upto(self@, col as int, row as int),
                decreases 9 - row,
            {
                let length = self.cell(row * 9 + col).values.as_str().unicode_len();
                if length > width {
                    width = length;
                }
                row += 1;
            }
            widths.push(width);
            col += 1;
        }
        widths
    }

    /// The board written out: one line for each row, every candidate set in
    /// the middle of its column, and a rule after the third and the sixth row.
    pub fn render(&self) -> (text: String)
        requires
            self.wf(),
        ensures
            text@ == grid_text(self@),
    {
        let widths = self.column_widths();
        let mut rule = String::from_str("-");
        let mut col: usize = 0;
        while col < 9
            invariant
                col <= 9,
                widths@.len() == 9,
                forall|c: int| 0 <= c < 9 ==> #[trigger] widths@[c] == column_width(self@, c),
                rule@ == rule_upto(self@, col as int),
            decreases 9 - col,
        {
            append_repeated(&mut rule, "-", widths[col]);
            rule.append(joint_of(col));
            col += 1;
        }
        let mut text = String::new();
        let mut row: usize = 0;
        assert(text@ =~= grid_upto(self@, 0));
        while row < 9
            invariant
                row <= 9,
                self.wf(),
                widths@.len() == 9,
                forall|c: int| 0 <= c < 9 ==> #[trigger] widths@[c] == column_width(self@, c),
                rule@ == rule_upto(self@, 9),
                text@ == grid_upto(self@, row as int),
            decreases 9 - row,
        {
            let mut line = String::from_str(" ");
            let mut col: usize = 0;
            while col < 9
                invariant
                    col <= 9,
                    row < 9,
                    self.wf(),
                    widths@.len() == 9,
                    forall|c: int| 0 <= c < 9 ==> #[trigger] widths@[c] == column_width(self@, c),
                    line@ == row_upto(self@, row as int, col as int),
                decreases 9 - col,
            {
                let value = self.cell(row * 9 + col).values.as_str();
                let length = value.unicode_len();
                proof {
                    lemma_column_width(self@, col as int, 9, row as int);
                }
                let spare = widths[col] - length;
                let ghost before = line@;
                append_repeated(&mut line, " ", spare / 2);
                line.append(value);
                append_repeated(&mut line, " ", spare - spare / 2);
                line.append(gap_of(col));
                assert(line@ =~= before + centered(value@, widths@[col as int] as int) + gap(
                    col as int,
                ));
                col += 1;
            }
            let ghost above = text@;
            text.append(line.as_str());
            text.append("\n");
            if row == 2 || row == 5 {
                text.append(rule.as_str());
                text.append("\n");
                assert(text@ =~= above + row_upto(self@, row as int, 9) + "\n"@ + rule_upto(
                    self@,
                    9,
                ) + "\n"@);
            }
            row += 1;
        }
        text
    }
}

} // verus!
