use sudidakt::model::cell_set::CellSet;
use sudidakt::model::cell_set::CellSetIterator;
use sudidakt::model::index::CellIndex;

#[test]
fn cell_set_empty_set() {
    let empty = CellSet::default();

    assert!(empty.is_empty());
    assert_eq!(0, empty.size());
    assert_eq!("{}", &empty.to_string());
}

#[test]
fn single_cell_set() {
    let single = CellSet::from(cell(3));

    assert!(!single.is_empty());
    assert_eq!(1, single.size());
    assert_eq!("{3}", &single.to_string());
}

#[test]
fn crud_cell_set() {
    let three = cell(3);
    let four = cell(4);

    let mut set = CellSet::default();
    set.add(three);

    assert!(set.has(three));
    assert!(!set.has(four));
    assert_eq!("{3}", &set.to_string());

    set.remove(four);

    assert!(set.has(three));
    assert!(!set.has(four));
    assert_eq!("{3}", &set.to_string());

    set.add(four);

    assert!(set.has(three));
    assert!(set.has(four));
    assert_eq!("{3, 4}", &set.to_string());

    set.remove(three);

    assert!(!set.has(three));
    assert!(set.has(four));
    assert_eq!("{4}", &set.to_string());

    set.remove(four);

    assert!(!set.has(three));
    assert!(!set.has(four));
    assert_eq!("{}", &set.to_string());
}

fn cell(cell: usize) -> CellIndex {
    CellIndex::new(cell).expect("Valid CellIndex")
}

#[test]
fn cell_set_iterates_ascending() {
    let mut set = CellSet::empty();
    set.add(cell(80));
    set.add(cell(0));
    set.add(cell(40));

    let mut members = CellSetIterator::new(set);
    assert_eq!(0, members.next().unwrap().value());
    assert_eq!(40, members.next().unwrap().value());
    assert_eq!(80, members.next().unwrap().value());
    assert!(members.next().is_none());

    //  The iterator consumed a private copy: the source is unchanged.
    assert_eq!(3, set.size());
}

#[test]
fn cell_set_full() {
    let full = CellSet::full();

    assert_eq!(81, full.size());
    for c in 0..81 {
        assert!(full.has(cell(c)));
    }
}
