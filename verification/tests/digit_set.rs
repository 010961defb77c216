use sudidakt::model::digit::Digit;
use sudidakt::model::digit_set::DigitSet;
use sudidakt::model::digit_set::DigitSetIterator;

#[test]
fn digit_set_empty_set() {
    let empty = DigitSet::default();

    assert!(empty.is_empty());
    assert_eq!(0, empty.size());
    assert_eq!("{}", &empty.to_string());
}

#[test]
fn single_digit_set() {
    let single = DigitSet::from(digit(3));

    assert!(!single.is_empty());
    assert_eq!(1, single.size());
    assert_eq!("{3}", &single.to_string());
}

#[test]
fn crud_digit_set() {
    let three = digit(3);
    let four = digit(4);

    let mut set = DigitSet::default();
    set.add(three);

    assert!(set.has(three));
    assert!(!set.has(four));
    assert_eq!("{3}", &set.to_string());

    set.remove(four);

    assert!(set.has(three));
    assert!(!set.has(four));
    assert_eq!("{3}", &set.to_string());

    set.add(four);

    assert!(set.has(three));
    assert!(set.has(four));
    assert_eq!("{3, 4}", &set.to_string());

    set.remove(three);

    assert!(!set.has(three));
    assert!(set.has(four));
    assert_eq!("{4}", &set.to_string());

    set.remove(four);

    assert!(!set.has(three));
    assert!(!set.has(four));
    assert_eq!("{}", &set.to_string());
}

fn digit(digit: usize) -> Digit {
    Digit::new(digit).expect("Valid Digit")
}

#[test]
fn digit_set_subsets() {
    let mut small = DigitSet::default();
    small.add(digit(2));
    small.add(digit(6));

    let mut large = small;
    large.add(digit(9));

    assert!(small.is_subset_of(&large));
    assert!(!large.is_subset_of(&small));
    assert!(large.is_superset_of(&small));
    assert!(!small.is_superset_of(&large));
    assert!(small.is_subset_of(&small));
    assert!(DigitSet::default().is_subset_of(&small));

    assert!(small.is_subset_of(&DigitSet::full()));
    assert_eq!(9, DigitSet::full().size());
}

#[test]
fn digit_set_iterates_ascending() {
    let mut set = DigitSet::default();
    set.add(digit(7));
    set.add(digit(2));
    set.add(digit(9));

    let mut members = DigitSetIterator::new(set);
    assert_eq!(2, members.next().unwrap().value());
    assert_eq!(7, members.next().unwrap().value());
    assert_eq!(9, members.next().unwrap().value());
    assert!(members.next().is_none());

    //  The iterator consumed a private copy: the source is unchanged.
    assert_eq!(3, set.size());
}
