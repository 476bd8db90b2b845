use sudoku::parse::decimal;
use sudoku::{parse_from_str, parse_grid, search, solve, ParseError, SudokuField};

const PUZZLE: &str =
    "4.....8.5.3..........7......2.....6.....8.4......1.......6.3.7.5..2.....1.4......";
const SOLUTION: &str =
    "417369825632158947958724316825437169791586432346912758289643571573291684164875293";

fn all_keys() -> Vec<String> {
    let mut keys = Vec::new();
    for row in "ABCDEFGHI".chars() {
        for column in "123456789".chars() {
            keys.push(format!("{}{}", row, column));
        }
    }
    keys
}

fn grid_text(field: &SudokuField) -> String {
    let mut text = String::new();
    for key in all_keys() {
        text.push_str(&field.get(&key).unwrap().values);
    }
    text
}

fn givens_of(text: &str) -> Vec<(String, char)> {
    all_keys()
        .into_iter()
        .zip(text.chars())
        .filter(|(_, digit)| ('1'..='9').contains(digit))
        .collect()
}

fn assert_solved(field: &SudokuField) {
    for key in all_keys() {
        let cell = field.get(&key).unwrap();
        assert_eq!(cell.values.len(), 1, "{}", key);
        for unit in cell.units.iter() {
            let mut digits: Vec<char> = unit
                .iter()
                .map(|k| field.get(k).unwrap().values.chars().next().unwrap())
                .collect();
            digits.sort();
            assert_eq!(digits, "123456789".chars().collect::<Vec<char>>());
        }
    }
}

#[test]
fn known_puzzle_is_solved() {
    let field = parse_from_str(PUZZLE).unwrap();
    let grid = search(&field).unwrap();
    assert_eq!(grid_text(&grid), SOLUTION);
    assert_solved(&grid);
    let solved = solve(&givens_of(PUZZLE)).unwrap();
    assert_eq!(grid_text(&solved), SOLUTION);
}

#[test]
fn zero_stands_for_a_blank_too() {
    let text = "003020600900305001001806400008102900700000008006708200002609500800203009005010300";
    let field = parse_from_str(text).unwrap();
    let expected = "483921657967345821251876493548132976729564138136798245372689514814253769695417382";
    assert_eq!(grid_text(&field), expected);
    assert_eq!(grid_text(&search(&field).unwrap()), expected);
}

#[test]
fn empty_puzzle_has_a_solved_grid() {
    let blank = ".".repeat(81);
    let field = parse_from_str(&blank).unwrap();
    let grid = search(&field).unwrap();
    assert_solved(&grid);
    let solved = solve(&Vec::new()).unwrap();
    assert_solved(&solved);
    assert_eq!(grid_text(&solved), grid_text(&grid));
}

#[test]
fn solved_grid_is_returned_unchanged() {
    let grid = solve(&givens_of(SOLUTION)).unwrap();
    assert_eq!(grid_text(&grid), SOLUTION);
    let field = parse_from_str(SOLUTION).unwrap();
    assert_eq!(grid_text(&field), SOLUTION);
    assert_eq!(grid_text(&search(&field).unwrap()), SOLUTION);
}

#[test]
fn same_digit_twice_in_a_row_has_no_solution() {
    let givens = vec![(String::from("A1"), '5'), (String::from("A2"), '5')];
    assert!(solve(&givens).is_none());
    let mut text = String::from("55");
    text.push_str(&".".repeat(79));
    assert_eq!(parse_from_str(&text).err().unwrap(), "Input puzzle contains a contradiction");
    assert_eq!(parse_grid(&text, 81).err(), Some(ParseError::Contradiction));
}

#[test]
fn two_digits_on_one_cell_have_no_solution() {
    let givens = vec![(String::from("A1"), '5'), (String::from("A1"), '6')];
    assert!(solve(&givens).is_none());
    let more = vec![
        (String::from("E5"), '1'),
        (String::from("A1"), '5'),
        (String::from("A1"), '6'),
        (String::from("I9"), '2'),
    ];
    assert!(solve(&more).is_none());
    // Another given between the two, and the first digit given again
    // outside the units of the cell.
    let apart = vec![
        (String::from("A1"), '5'),
        (String::from("E5"), '3'),
        (String::from("A1"), '6'),
        (String::from("I9"), '5'),
    ];
    assert!(solve(&apart).is_none());
    // The first digit comes back to the row and the column of the cell, but
    // not to its box.
    let boxed = vec![
        (String::from("A1"), '5'),
        (String::from("B2"), '7'),
        (String::from("A1"), '6'),
        (String::from("A4"), '5'),
        (String::from("D1"), '5'),
    ];
    assert!(solve(&boxed).is_none());
}

#[test]
fn search_without_a_solution_finds_none() {
    // Row A leaves no place for a 9: A1..A8 hold 1..8 and I9 in the same
    // column as A9 holds 9.
    let mut text = String::from("12345678.");
    text.push_str(&".".repeat(71));
    text.push('9');
    let field = parse_from_str(&text);
    match field {
        Ok(field) => assert!(search(&field).is_none()),
        Err(e) => assert_eq!(e, "Input puzzle contains a contradiction"),
    }
    assert!(solve(&givens_of(&text)).is_none());
}

#[test]
fn text_of_wrong_length_is_refused() {
    assert_eq!(
        parse_from_str("").err().unwrap(),
        "The length of puzzle should be exactly 81 characters, not 0"
    );
    assert_eq!(
        parse_from_str("123").err().unwrap(),
        "The length of puzzle should be exactly 81 characters, not 3"
    );
    let long = ".".repeat(82);
    assert_eq!(
        parse_from_str(&long).err().unwrap(),
        "The length of puzzle should be exactly 81 characters, not 82"
    );
    let spaced = format!("  {}  ", ".".repeat(80));
    assert_eq!(
        parse_from_str(&spaced).err().unwrap(),
        "The length of puzzle should be exactly 81 characters, not 80"
    );
    assert_eq!(parse_grid(&spaced, 80).err(), Some(ParseError::WrongLength { found: 80 }));
}

#[test]
fn white_space_around_the_text_is_not_counted() {
    let line = format!("{}\n", PUZZLE);
    let field = parse_from_str(&line).unwrap();
    assert_eq!(grid_text(&search(&field).unwrap()), SOLUTION);
    // The cells are read from the text as it stands, so white space in
    // front of it is an invalid value at the first cell.
    let indented = format!(" {}", PUZZLE);
    assert_eq!(
        parse_from_str(&indented).err().unwrap(),
        "Invalid value in input puzzle: ' ' in position A1"
    );
}

#[test]
fn invalid_character_is_reported_with_its_cell() {
    let mut text: Vec<char> = PUZZLE.chars().collect();
    text[13] = 'x';
    let text: String = text.into_iter().collect();
    assert_eq!(
        parse_from_str(&text).err().unwrap(),
        "Invalid value in input puzzle: 'x' in position B5"
    );
    assert_eq!(
        parse_grid(&text, 81).err(),
        Some(ParseError::InvalidValue { value: 'x', row: 'B', column: '5' })
    );
    let mut last: Vec<char> = ".".repeat(81).chars().collect();
    last[80] = '-';
    let last: String = last.into_iter().collect();
    assert_eq!(
        parse_from_str(&last).err().unwrap(),
        "Invalid value in input puzzle: '-' in position I9"
    );
}

#[test]
fn first_error_in_the_text_wins() {
    // The contradiction at A2 comes before the invalid character at A3.
    let mut text = String::from("55x");
    text.push_str(&".".repeat(78));
    assert_eq!(parse_from_str(&text).err().unwrap(), "Input puzzle contains a contradiction");
    let mut other = String::from("x55");
    other.push_str(&".".repeat(78));
    assert_eq!(
        parse_from_str(&other).err().unwrap(),
        "Invalid value in input puzzle: 'x' in position A1"
    );
}

#[test]
fn grid_is_read_with_a_given_count() {
    let blank = ".".repeat(81);
    assert!(parse_grid(&blank, 81).is_ok());
    assert!(matches!(parse_grid(&blank, 80), Err(ParseError::WrongLength { found: 80 })));
}

#[test]
fn errors_are_reported_in_words() {
    assert_eq!(
        ParseError::WrongLength { found: 3 }.message(),
        "The length of puzzle should be exactly 81 characters, not 3"
    );
    assert_eq!(
        parse_grid(&".".repeat(120), 120).err().unwrap().message(),
        "The length of puzzle should be exactly 81 characters, not 120"
    );
    assert_eq!(
        ParseError::InvalidValue { value: 'x', row: 'B', column: '5' }.message(),
        "Invalid value in input puzzle: 'x' in position B5"
    );
    assert_eq!(
        ParseError::InvalidValue { value: 'é', row: 'I', column: '9' }.message(),
        "Invalid value in input puzzle: 'é' in position I9"
    );
    assert_eq!(ParseError::Contradiction.message(), "Input puzzle contains a contradiction");
}

#[test]
fn numbers_are_written_in_decimal() {
    assert_eq!(decimal(0), "0");
    assert_eq!(decimal(7), "7");
    assert_eq!(decimal(9), "9");
    assert_eq!(decimal(10), "10");
    assert_eq!(decimal(81), "81");
    assert_eq!(decimal(1203), "1203");
    assert_eq!(decimal(usize::MAX), usize::MAX.to_string());
}

#[test]
fn errors_can_be_compared() {
    assert_eq!(parse_grid("12", 2).err(), Some(ParseError::WrongLength { found: 2 }));
    assert_ne!(ParseError::Contradiction, ParseError::WrongLength { found: 81 });
}

#[test]
fn later_givens_do_not_undo_a_conflict() {
    // Two digits on A1 are a contradiction, and giving the first digit to
    // other cells afterwards does not mend it.
    let givens = vec![
        (String::from("A1"), '5'),
        (String::from("A1"), '6'),
        (String::from("A4"), '5'),
        (String::from("D1"), '5'),
        (String::from("B2"), '5'),
    ];
    assert!(solve(&givens).is_none());
    let short = vec![
        (String::from("A1"), '5'),
        (String::from("A1"), '6'),
        (String::from("A2"), '5'),
    ];
    assert!(solve(&short).is_none());
    // The same digit twice on one cell is no conflict.
    let twice = vec![(String::from("A1"), '4'), (String::from("A1"), '4')];
    assert_eq!(grid_text(&solve(&twice).unwrap()), grid_text(&solve(&givens_of("4")).unwrap()));
}

fn board_text(field: &SudokuField) -> String {
    let cells: Vec<String> =
        all_keys().iter().map(|key| field.get(key).unwrap().values.clone()).collect();
    cells.join("|")
}

#[test]
fn propagation_leaves_the_known_boards() {
    let cases = [
        (
            "4.00690..0.....0.09...0..0.8.5000100..0.000..00...0.0.0..04000050.0..6041.4870290",
            "4|123578|12378|12357|6|9|3578|123578|123578|2367|1235678|123678|123457|12358|1234578|345789|12345678|12356789|9|1235678|123678|123457|12358|1234578|34578|12345678|1235678|8|234679|5|234679|239|23467|1|23467|23679|2367|1234679|123679|12345679|123589|12345678|345789|2345678|2356789|2367|1234679|123679|12345679|123589|12345678|345789|2345678|2356789|2367|236789|236789|123569|4|12356|3578|13578|13578|5|23789|23789|1239|1239|123|6|1378|4|1|36|4|8|7|356|2|9|35",
            "452169783316487952987235461865723149291654837743918526679542318528391674134876295",
        ),
        (
            "...06..250.0.5.94.00....3.60.000.1.9..0500...3.090075.0.060.0...002010.01048000.3",
            "479|13479|1379|1347|6|3479|8|2|5|2678|123678|123678|137|5|2378|9|4|17|245789|1245789|125789|147|124789|24789|3|17|6|245678|245678|25678|347|23478|234678|1|368|9|246789|1246789|126789|5|123478|234678|246|368|248|3|12468|1268|9|1248|2468|7|5|248|25789|235789|235789|6|3479|34579|245|1789|12478|56789|356789|356789|2|3479|1|456|6789|478|1|25679|4|8|79|579|256|679|3",
            "713469825286357941495128376852734169679512438341986752928643517537291684164875293",
        ),
        (
            ".00009..063215804090870.300..50.00007.15.60.0.46.12000.00..0.0.50.0000.410.80.003",
            "4|15|7|236|236|9|12568|12568|12568|6|3|2|1|5|8|79|4|79|9|15|8|7|26|4|3|1256|1256|238|289|5|349|34789|37|1246789|1236789|126789|7|289|1|5|3489|6|2489|2389|289|38|4|6|39|1|2|5789|35789|5789|238|26789|349|23469|234679|1357|1256789|1256789|1256789|5|26789|39|2369|23679|137|126789|126789|4|1|2679|49|8|24679|57|25679|25679|3",
            "417369285632158749958724316285473961791586432346912578863245197579631824124897653",
        ),
        (
            "..70090.5032.5.900.58..03.0820037009001..6.....001..5..8.603..100..00000.64075293",
            "46|14|7|1234|2468|9|1468|12468|5|46|3|2|147|5|148|9|14678|4678|469|5|8|1247|246|124|3|12467|2467|8|2|56|45|3|7|146|146|9|34579|479|1|2459|2489|6|478|23478|2478|34679|479|369|249|1|248|4678|5|24678|2579|8|59|6|249|3|457|47|1|23579|79|359|1249|249|124|45678|4678|4678|1|6|4|8|7|5|2|9|3",
            "417329685632758914958164327825437169791586432346912758289643571573291846164875293",
        ),
    ];
    for (puzzle, board, solved) in cases {
        let field = parse_from_str(puzzle).unwrap();
        assert_eq!(board_text(&field), board);
        let grid = search(&field).unwrap();
        assert_eq!(grid_text(&grid), solved);
        assert_solved(&grid);
        assert_eq!(grid_text(&solve(&givens_of(puzzle)).unwrap()), solved);
    }
}

#[test]
fn solved_grid_is_written_out() {
    let grid = search(&parse_from_str(PUZZLE).unwrap()).unwrap();
    assert_eq!(
        grid.render(),
        " 4  1  7 | 3  6  9 | 8  2  5\n 6  3  2 | 1  5  8 | 9  4  7\n 9  5  8 | 7  2  4 | 3  1  6\n---------+---------+--------\n 8  2  5 | 4  3  7 | 1  6  9\n 7  9  1 | 5  8  6 | 4  3  2\n 3  4  6 | 9  1  2 | 7  5  8\n---------+---------+--------\n 2  8  9 | 6  4  3 | 5  7  1\n 5  7  3 | 2  9  1 | 6  8  4\n 1  6  4 | 8  7  5 | 2  9  3\n"
    );
}

#[test]
fn candidates_are_written_in_the_middle_of_their_columns() {
    let field = parse_from_str(PUZZLE).unwrap();
    assert_eq!(
        field.render(),
        "   4     1679    12679  |  139    2369    1269   |   8    1239     5   \n 26789    3     1256789 | 14589  24569   1245689 | 12679  1249   124679\n 2689   15689   125689  |   7    234569  1245689 | 12369  12349  123469\n------------------------+------------------------+---------------------\n 3789     2     135789  | 3459   34579    4579   | 13579    6    13789 \n 3679   15679   135679  |  359     8      25679  |   4    12359  12379 \n 36789  456789  356789  | 3459     1     245679  | 23579  23589  23789 \n------------------------+------------------------+---------------------\n  289     89      289   |   6     459       3    | 1259     7    12489 \n   5     6789    36789  |   2     479     14789  | 1369   13489  134689\n   1     6789      4    |  589    579     5789   | 23569  23589  23689 \n"
    );
}
