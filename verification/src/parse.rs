//! Reading a puzzle from its 81-character text.
//!
//! The text holds one character per cell in row-major order: a digit `1`..`9`
//! for a given cell, `0` or `.` for a blank one.  Any other character refuses
//! the text, with the cell at which it stands.  White space around the text
//! is not counted, but the cells are read from the text as it stands.

use vstd::prelude::*;
use vstd::string::*;
use crate::board::{Board, consistent, full_board, lemma_full_board};
use crate::coord::{col_char, make_key, row_char, lemma_key_index, COLUMNS, ROWS};
use crate::digits::{digit_text, is_digit};
use crate::field::SudokuField;
use crate::propagate::{given, lemma_given_consistent};

verus! {

/// Why a text is no puzzle.
#[derive(Debug, Clone, Copy, PartialEq, Eq, Structural)]
pub enum ParseError {
    /// The text, white space around it not counted, holds `found` characters
    /// and not 81.
    WrongLength { found: usize },
    /// The character `value` at the cell in `row` and `column` is neither a
    /// digit nor a blank.
    InvalidValue { value: char, row: char, column: char },
    /// The given digits contradict each other.
    Contradiction,
}

/// The ten digits in which a number is written.
pub const DECIMALS: &'static str = "0123456789";

/// The digit for a number below ten.
pub open spec fn decimal_char(d: int) -> char {
    (('0' as int) + d) as char
}

/// A number written in decimal digits.
pub open spec fn decimal_text(n: nat) -> Seq<char>
    decreases n,
{
    if n < 10 {
        seq![decimal_char(n as int)]
    } else {
        decimal_text(n / 10).push(decimal_char((n % 10) as int))
    }
}

/// Writes a number in decimal digits.
pub fn decimal(n: usize) -> (text: String)
    ensures
        text@ == decimal_text(n as nat),
    decreases n,
{
    proof {
        reveal_strlit("0123456789");
    }
    if n < 10 {
        let text = String::from_str(DECIMALS.substring_ascii(n, n + 1));
        assert(text@ =~= seq![decimal_char(n as int)]);
        text
    } else {
        let mut text = decimal(n / 10);
        let last = n % 10;
        text.append(DECIMALS.substring_ascii(last, last + 1));
        assert(text@ =~= decimal_text((n / 10) as nat).push(decimal_char(last as int)));
        text
    }
}

/// Calls `String::push`, which appends the character to the end of the text.
#[verifier::external_body]
fn push_char(text: &mut String, c: char)
    ensures
        final(text)@ == old(text)@.push(c),
{
    text.push(c)
}

impl ParseError {
    /// The words in which the error is reported.
    pub open spec fn text(self) -> Seq<char> {
        match self {
            ParseError::WrongLength { found } => {
                "The length of puzzle should be exactly 81 characters, not "@ + decimal_text(
                    found as nat,
                )
            },
            ParseError::InvalidValue { value, row, column } => {
                "Invalid value in input puzzle: '"@ + seq![value] + "' in position "@ + seq![
                    row,
                    column,
                ]
            },
            ParseError::Contradiction => "Input puzzle contains a contradiction"@,
        }
    }

    /// The words in which the error is reported.
    pub fn message(&self) -> (words: String)
        ensures
            words@ == self.text(),
    {
        match self {
            ParseError::WrongLength { found } => {
                let mut words = String::from_str(
                    "The length of puzzle should be exactly 81 characters, not ",
                );
                let number = decimal(*found);
                words.append(number.as_str());
                words
            },
            ParseError::InvalidValue { value, row, column } => {
                let mut words = String::from_str("Invalid value in input puzzle: '");
                push_char(&mut words, *value);
                words.append("' in position ");
                push_char(&mut words, *row);
                push_char(&mut words, *column);
                assert(words@ =~= self.text());
                words
            },
            ParseError::Contradiction => String::from_str("Input puzzle contains a contradiction"),
        }
    }
}

/// The text without the white space at its two ends, as `str::trim` gives it.
pub uninterp spec fn trimmed(text: Seq<char>) -> Seq<char>;

/// Calls `str::trim`, which hands back the part of the text between its
/// leading and its trailing white space.  The contract names that part and
/// claims of it only that it is no longer than the text.
#[verifier::external_body]
fn trim(text: &str) -> (inner: &str)
    ensures
        inner@ == trimmed(text@),
        inner@.len() <= text@.len(),
{
    text.trim()
}

/// A character that stands for a blank cell.
pub open spec fn is_blank(c: char) -> bool {
    c == '0' || c == '.'
}

/// The board after the first `k` characters of the text have been read, or
/// the first error met among them.
pub open spec fn parsed_upto(text: Seq<char>, k: int) -> Result<Board, ParseError>
    decreases k,
{
    if k <= 0 {
        Ok(full_board())
    } else {
        match parsed_upto(text, k - 1) {
            Err(e) => Err(e),
            Ok(b) => {
                let value = text[k - 1];
                if is_blank(value) {
                    Ok(b)
                } else if is_digit(value) {
                    match given(b, k - 1, value) {
                        Some(after) => Ok(after),
                        None => Err(ParseError::Contradiction),
                    }
                } else {
                    Err(
                        ParseError::InvalidValue {
                            value,
                            row: row_char((k - 1) / 9),
                            column: col_char((k - 1) % 9),
                        },
                    )
                }
            },
        }
    }
}

/// What reading a text gives, `count` being the number of characters it
/// holds between the white space at its ends.
pub open spec fn parsed(text: Seq<char>, count: nat) -> Result<Board, ParseError> {
    if count != 81 {
        Err(ParseError::WrongLength { found: count as usize })
    } else {
        parsed_upto(text, 81)
    }
}

/// Whether what came of reading a text is what `expected` says: the same
/// error, or a whole and consistent board with the same candidates.
pub open spec fn parse_outcome(
    expected: Result<Board, ParseError>,
    res: Result<SudokuField, ParseError>,
) -> bool {
    match expected {
        Ok(b) => res matches Ok(field) && field.wf() && field@ == b && consistent(b),
        Err(e) => res matches Err(f) && f == e,
    }
}

/// An error met in the text stays the outcome however much more is read.
pub proof fn lemma_parse_error_stays(text: Seq<char>, k: int, m: int)
    requires
        0 <= k <= m,
        parsed_upto(text, k) is Err,
    ensures
        parsed_upto(text, m) == parsed_upto(text, k),
    decreases m - k,
{
    if k < m {
        lemma_parse_error_stays(text, k, m - 1);
    }
}

/// Whether what came of reading a text is what `expected` says: the words
/// of the same error, or a whole and consistent board with the same candidates.
pub open spec fn reported(
    expected: Result<Board, ParseError>,
    res: Result<SudokuField, String>,
) -> bool {
    match expected {
        Ok(b) => res matches Ok(field) && field.wf() && field@ == b && consistent(b),
        Err(e) => res matches Err(words) && words@ == e.text(),
    }
}

/// Reads a puzzle: a board on which every given digit is fixed and
/// propagated, in row-major order.  A text that is no puzzle is refused with
/// the words that say why.
pub fn parse_from_str(input: &str) -> (res: Result<SudokuField, String>)
    ensures
        reported(parsed(input@, trimmed(input@).len()), res),
{
    let count = trim(input).unicode_len();
    match parse_grid(input, count) {
        Ok(field) => Ok(field),
        Err(e) => Err(e.message()),
    }
}

/// Reads a puzzle from a text of which `count` characters stand between the
/// white space at its ends, and says by an error of its own kind why a text
/// is refused.
pub fn parse_grid(input: &str, count: usize) -> (res: Result<SudokuField, ParseError>)
    requires
        count <= input@.len(),
    ensures
        parse_outcome(parsed(input@, count as nat), res),
{
    if count != 81 {
        return Err(ParseError::WrongLength { found: count });
    }
    let mut squares = SudokuField::new();
    proof {
        lemma_full_board();
    }
    let mut k: usize = 0;
    while k < 81
        invariant
            k <= 81,
            count == 81,
            input@.len() >= 81,
            squares.wf(),
            consistent(squares@),
            parsed_upto(input@, k as int) == Ok::<Board, ParseError>(squares@),
        decreases 81 - k,
    {
        let input_char = input.get_char(k);
        if input_char == '0' || input_char == '.' {
        } else if '1' <= input_char && input_char <= '9' {
            let ghost b = squares@;
            let key = make_key(k);
            proof {
                lemma_key_index(k as int);
            }
            let fixed = squares.assign(key.as_str(), digit_text(input_char));
            proof {
                assert(seq![input_char][0] == input_char);
                if fixed is Some {
                    lemma_given_consistent(b, k as int, input_char);
                }
            }
            if fixed.is_none() {
                proof {
                    lemma_parse_error_stays(input@, k + 1, 81);
                }
                return Err(ParseError::Contradiction);
            }
        } else {
            proof {
                reveal_strlit("ABCDEFGHI");
                reveal_strlit("123456789");
                lemma_parse_error_stays(input@, k + 1, 81);
            }
            return Err(
                ParseError::InvalidValue {
                    value: input_char,
                    row: ROWS.get_char(k / 9),
                    column: COLUMNS.get_char(k % 9),
                },
            );
        }
        k += 1;
    }
    Ok(squares)
}

} // verus!
