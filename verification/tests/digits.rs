use sudoku::digits::{digit_text, position, without};

#[test]
fn position_of_a_digit() {
    assert_eq!(position("123456789", '1'), Some(0));
    assert_eq!(position("123456789", '9'), Some(8));
    assert_eq!(position("2468", '6'), Some(2));
    assert_eq!(position("2468", '5'), None);
    assert_eq!(position("", '5'), None);
}

#[test]
fn candidates_without_one() {
    assert_eq!(without("123456789", 0), "23456789");
    assert_eq!(without("123456789", 8), "12345678");
    assert_eq!(without("2468", 2), "248");
    assert_eq!(without("7", 0), "");
}

#[test]
fn text_of_each_digit() {
    for (k, digit) in "123456789".chars().enumerate() {
        assert_eq!(digit_text(digit), &"123456789"[k..k + 1]);
    }
}
