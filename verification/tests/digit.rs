use sudidakt::model::digit::Digit;
use sudidakt::model::dimension::DIMENSION;

#[test]
fn valid_digits() {
    for i in 1..=DIMENSION {
        let digit = Digit::new(i);
        assert_eq!(i, digit.expect("Valid Digit").value());
    }
}

#[test]
fn invalid_zero() {
    let result = Digit::new(0);
    assert_eq!(Err("0 is never an appropriate digit".to_string()), result);
}

#[test]
fn invalid_high() {
    let result = Digit::new(DIMENSION + 1);
    assert_eq!(Err("10 is not an appropriate digit for a 9x9 sudoku grid".to_string()), result);
}
