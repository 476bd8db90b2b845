use sudoku::{Cell, SudokuField};

fn all_keys() -> Vec<String> {
    let mut keys = Vec::new();
    for row in "ABCDEFGHI".chars() {
        for column in "123456789".chars() {
            keys.push(format!("{}{}", row, column));
        }
    }
    keys
}

fn values(field: &SudokuField, key: &str) -> String {
    field.get(key).unwrap().values.clone()
}

#[test]
fn new_field_is_full() {
    let field = SudokuField::new();
    for key in all_keys() {
        let cell = field.get(&key).unwrap();
        let fresh = Cell::new(&key);
        assert_eq!(cell.values, "123456789");
        assert_eq!(cell.units, fresh.units);
        assert_eq!(cell.peers, fresh.peers);
    }
    assert!(field.get("J1").is_none());
    assert!(field.get("A0").is_none());
    assert!(field.get("").is_none());
}

#[test]
fn assign_single_digit_takes_it_from_every_peer() {
    let mut field = SudokuField::new();
    assert_eq!(field.assign("E5", "7"), Some(String::from("7")));
    assert_eq!(values(&field, "E5"), "7");
    let peers = field.get("E5").unwrap().peers.clone();
    for key in all_keys() {
        if peers.contains(&key) {
            assert_eq!(values(&field, &key), "12345689", "{}", key);
        } else if key != "E5" {
            assert_eq!(values(&field, &key), "123456789", "{}", key);
        }
    }
}

#[test]
fn assign_several_digits_overwrites_one_cell() {
    let mut field = SudokuField::new();
    assert_eq!(field.assign("B2", "159"), Some(String::from("159")));
    for key in all_keys() {
        let expected = if key == "B2" { "159" } else { "123456789" };
        assert_eq!(values(&field, &key), expected);
    }
}

#[test]
fn assign_nothing_is_a_contradiction() {
    let mut field = SudokuField::new();
    assert_eq!(field.assign("B2", ""), None);
    for key in all_keys() {
        assert_eq!(values(&field, &key), "123456789");
    }
}

#[test]
fn assign_cascades_through_forced_peers() {
    let mut field = SudokuField::new();
    // A2 is left with 1 and 2; fixing A1 to 1 forces A2 to 2, which in turn
    // takes 2 out of the peers of A2.
    assert!(field.assign("A2", "12").is_some());
    assert_eq!(field.assign("A1", "1"), Some(String::from("1")));
    assert_eq!(values(&field, "A1"), "1");
    assert_eq!(values(&field, "A2"), "2");
    assert_eq!(values(&field, "A3"), "3456789");
    assert_eq!(values(&field, "B1"), "3456789");
    assert_eq!(values(&field, "I1"), "23456789");
    assert_eq!(values(&field, "I2"), "13456789");
    assert_eq!(values(&field, "I9"), "123456789");
}

#[test]
fn same_digit_in_two_peers_is_a_contradiction() {
    let mut field = SudokuField::new();
    assert_eq!(field.assign("A1", "5"), Some(String::from("5")));
    assert_eq!(field.assign("A2", "5"), None);
    assert_eq!(values(&field, "A1"), "5");
    assert_eq!(values(&field, "A2"), "12346789");
}

#[test]
fn second_digit_on_a_fixed_cell_is_a_contradiction() {
    let mut field = SudokuField::new();
    assert_eq!(field.assign("A1", "5"), Some(String::from("5")));
    let before: Vec<String> = all_keys().iter().map(|key| values(&field, key)).collect();
    assert_eq!(field.assign("A1", "6"), None);
    // the refused digit leaves the board as it was
    let after: Vec<String> = all_keys().iter().map(|key| values(&field, key)).collect();
    assert_eq!(after, before);
    assert_eq!(values(&field, "A1"), "5");
    assert_eq!(values(&field, "A2"), "12346789");
}

#[test]
fn digit_that_is_no_candidate_is_a_contradiction() {
    let mut field = SudokuField::new();
    assert!(field.assign("E5", "1379").is_some());
    for digit in ["2", "4", "5", "6", "8"] {
        assert_eq!(field.assign("E5", digit), None);
        assert_eq!(values(&field, "E5"), "1379");
        assert_eq!(values(&field, "E4"), "123456789");
    }
    assert_eq!(field.assign("E5", "7"), Some(String::from("7")));
    assert_eq!(values(&field, "E5"), "7");
    assert_eq!(values(&field, "E4"), "12345689");
}

#[test]
fn same_digit_again_on_a_fixed_cell_changes_nothing() {
    let mut field = SudokuField::new();
    assert_eq!(field.assign("C7", "3"), Some(String::from("3")));
    let before: Vec<String> = all_keys().iter().map(|key| values(&field, key)).collect();
    assert_eq!(field.assign("C7", "3"), Some(String::from("3")));
    let after: Vec<String> = all_keys().iter().map(|key| values(&field, key)).collect();
    assert_eq!(after, before);
}

#[test]
fn no_two_solved_peers_share_a_digit_after_assignments() {
    let mut field = SudokuField::new();
    let givens = [("A1", "4"), ("A7", "8"), ("A9", "5"), ("B2", "3"), ("D2", "2"), ("D8", "6")];
    for (key, digit) in givens {
        assert!(field.assign(key, digit).is_some());
    }
    for key in all_keys() {
        let cell = field.get(&key).unwrap();
        if cell.values.len() == 1 {
            for peer in cell.peers.iter() {
                assert!(!values(&field, peer).contains(cell.values.as_str()), "{} {}", key, peer);
            }
        }
    }
}

#[test]
fn candidates_come_fewest_first_in_coordinate_order() {
    let mut field = SudokuField::new();
    assert_eq!(field.candidates().len(), 81);
    assert!(field.assign("E5", "7").is_some());
    assert!(field.assign("I9", "12").is_some());
    assert!(field.assign("A1", "12").is_some());
    assert!(field.assign("C3", "345").is_some());
    let listed: Vec<(String, String)> = field
        .candidates()
        .iter()
        .map(|(key, cell)| ((*key).clone(), cell.values.clone()))
        .collect();
    assert_eq!(listed.len(), 80);
    assert_eq!(listed[0], (String::from("A1"), String::from("12")));
    assert_eq!(listed[1], (String::from("I9"), String::from("12")));
    assert_eq!(listed[2], (String::from("C3"), String::from("345")));
    let peers = field.get("E5").unwrap().peers.clone();
    assert_eq!(&listed[3..23].iter().map(|e| e.0.clone()).collect::<Vec<String>>(), &peers);
    for entry in &listed[3..23] {
        assert_eq!(entry.1, "12345689");
    }
    for pair in listed.windows(2) {
        let (a, b) = (&pair[0], &pair[1]);
        assert!(a.1.len() < b.1.len() || (a.1.len() == b.1.len() && a.0 < b.0));
    }
    assert!(listed.iter().all(|e| e.0 != "E5"));
}

#[test]
fn a_copy_of_a_field_holds_the_same_cells() {
    let mut field = SudokuField::new();
    assert!(field.assign("D4", "9").is_some());
    let copy = field.clone();
    assert!(field.assign("D5", "8").is_some());
    assert_eq!(values(&copy, "D4"), "9");
    assert_eq!(values(&copy, "D5"), "12345678");
    assert_eq!(values(&field, "D5"), "8");
}

#[test]
fn full_board_is_written_out() {
    let cells = " 123456789  123456789  123456789 | 123456789  123456789  123456789 | 123456789  123456789  123456789\n";
    let rule = "---------------------------------+---------------------------------+--------------------------------\n";
    let mut expected = String::new();
    for row in 0..9 {
        expected.push_str(cells);
        if row == 2 || row == 5 {
            expected.push_str(rule);
        }
    }
    assert_eq!(SudokuField::new().render(), expected);
}
