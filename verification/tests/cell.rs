use sudoku::coord::{is_coordinate, key_index, make_key};
use sudoku::Cell;

#[test]
fn new_cell() {
    let cell = Cell::new("C3");
    assert_eq!(cell.values, String::from("123456789"));

    let expected_units: [Vec<String>; 3]  = [
        vec![String::from("A3"), String::from("B3"), String::from("C3"),
             String::from("D3"), String::from("E3"), String::from("F3"),
             String::from("G3"), String::from("H3"), String::from("I3")],
        vec![String::from("C1"), String::from("C2"), String::from("C3"),
             String::from("C4"), String::from("C5"), String::from("C6"),
             String::from("C7"), String::from("C8"), String::from("C9")],
        vec![String::from("A1"), String::from("A2"), String::from("A3"),
             String::from("B1"), String::from("B2"), String::from("B3"),
             String::from("C1"), String::from("C2"), String::from("C3")],
    ];
    assert_eq!(cell.units, expected_units);

    let mut expected_peers: Vec<String> = Vec::new();
    for s in ["A1", "A2", "A3", "B1", "B2", "B3", "C1", "C2", "C4", "C5",
                     "C6", "C7", "C8", "C9", "D3", "E3", "F3", "G3", "H3", "I3"].iter() {
            expected_peers.push(s.to_string());
        }
    assert_eq!(cell.peers, expected_peers);
}

fn all_keys() -> Vec<String> {
    let mut keys = Vec::new();
    for row in "ABCDEFGHI".chars() {
        for column in "123456789".chars() {
            keys.push(format!("{}{}", row, column));
        }
    }
    keys
}

#[test]
fn keys_and_indices_are_inverse() {
    let keys = all_keys();
    assert_eq!(keys.len(), 81);
    for (i, key) in keys.iter().enumerate() {
        assert!(is_coordinate(key));
        assert_eq!(key_index(key), i);
        assert_eq!(&make_key(i), key);
    }
    assert_eq!(key_index("A1"), 0);
    assert_eq!(key_index("A9"), 8);
    assert_eq!(key_index("B1"), 9);
    assert_eq!(key_index("I9"), 80);
    assert_eq!(make_key(40), "E5");
}

#[test]
fn texts_that_name_no_cell() {
    for text in ["", "A", "A0", "J1", "a1", "A10", "1A", "A1 ", "é1"] {
        assert!(!is_coordinate(text), "{:?}", text);
    }
}

#[test]
fn every_cell_has_twenty_peers() {
    for key in all_keys() {
        let cell = Cell::new(&key);
        assert_eq!(cell.peers.len(), 20, "{}", key);
        assert!(!cell.peers.contains(&key));
        let mut sorted = cell.peers.clone();
        sorted.sort();
        sorted.dedup();
        assert_eq!(sorted, cell.peers);
    }
}

#[test]
fn peers_are_symmetric() {
    let keys = all_keys();
    for a in &keys {
        let cell = Cell::new(a);
        for b in &keys {
            let other = Cell::new(b);
            assert_eq!(cell.peers.contains(b), other.peers.contains(a), "{} {}", a, b);
        }
    }
}

#[test]
fn units_hold_nine_cells_and_the_cell_itself() {
    for key in all_keys() {
        let units = Cell::find_units(&key);
        for unit in units.iter() {
            assert_eq!(unit.len(), 9);
            assert!(unit.contains(&key));
        }
    }
    let units = Cell::find_units("E5");
    let expect = |list: [&str; 9]| list.iter().map(|s| s.to_string()).collect::<Vec<String>>();
    assert_eq!(units[0], expect(["A5", "B5", "C5", "D5", "E5", "F5", "G5", "H5", "I5"]));
    assert_eq!(units[1], expect(["E1", "E2", "E3", "E4", "E5", "E6", "E7", "E8", "E9"]));
    assert_eq!(units[2], expect(["D4", "D5", "D6", "E4", "E5", "E6", "F4", "F5", "F6"]));
    let corner = Cell::find_units("I9");
    assert_eq!(corner[2], expect(["G7", "G8", "G9", "H7", "H8", "H9", "I7", "I8", "I9"]));
}

#[test]
fn peers_of_given_lists() {
    let units = [
        vec![String::from("B2"), String::from("A1")],
        vec![String::from("A1"), String::from("I9"), String::from("B2")],
        vec![String::from("C3")],
    ];
    let peers = Cell::find_peers("B2", &units);
    assert_eq!(peers, vec![String::from("A1"), String::from("C3"), String::from("I9")]);
    let none: [Vec<String>; 3] = [Vec::new(), Vec::new(), Vec::new()];
    assert!(Cell::find_peers("A1", &none).is_empty());
}

#[test]
fn a_copy_of_a_cell_is_equal_to_it() {
    let cell = Cell::new("G4");
    let copy = cell.clone();
    assert_eq!(copy.values, cell.values);
    assert_eq!(copy.units, cell.units);
    assert_eq!(copy.peers, cell.peers);
}
