use sudidakt::model::digit::Digit;
use sudidakt::model::digit_counter::DigitCounter;

#[test]
fn empty_counter() {
    let empty = DigitCounter::default();

    assert_eq!("{1: 0, 2: 0, 3: 0, 4: 0, 5: 0, 6: 0, 7: 0, 8: 0, 9: 0}", empty.to_string());
}

#[test]
fn full_counter() {
    let full = DigitCounter::full();

    assert_eq!("{1: 9, 2: 9, 3: 9, 4: 9, 5: 9, 6: 9, 7: 9, 8: 9, 9: 9}", full.to_string());

    for d in 1..=9 {
        assert_eq!(9, full.count(digit(d)));
    }
}

#[test]
fn counter_set_decrement_increment() {
    let mut counter = DigitCounter::default();

    counter.set(digit(3), 5);
    assert_eq!(5, counter.count(digit(3)));
    assert_eq!(0, counter.count(digit(4)));

    counter.decrement(digit(3));
    assert_eq!(4, counter.count(digit(3)));

    counter.increment(digit(3));
    counter.increment(digit(3));
    assert_eq!(6, counter.count(digit(3)));
    assert_eq!(0, counter.count(digit(2)));

    //  An increment may reach the maximum count, and so may a set.
    counter.set(digit(5), 8);
    counter.increment(digit(5));
    assert_eq!(9, counter.count(digit(5)));

    counter.set(digit(6), 9);
    assert_eq!(9, counter.count(digit(6)));
}

#[test]
fn counter_singles() {
    let mut counter = DigitCounter::default();
    counter.set(digit(2), 1);
    counter.set(digit(5), 1);
    counter.set(digit(7), 3);

    let mut singles = counter.singles();
    assert_eq!(2, singles.next().unwrap().value());
    assert_eq!(5, singles.next().unwrap().value());
    assert!(singles.next().is_none());
}

fn digit(digit: usize) -> Digit {
    Digit::new(digit).expect("Valid Digit")
}
