use sudidakt::model::digit::Digit;
use sudidakt::model::group::Group;
use sudidakt::model::index::CellIndex;
use sudidakt::solver::possible_values::PossibleValues;

#[test]
fn all_possible() {
    let values = PossibleValues::all();

    for c in 0..81 {
        let candidates = values.of_cell(cell_at(c));
        assert_eq!(9, candidates.size());
        for d in 1..=9 {
            assert!(candidates.has(digit(d)));
        }
    }
    for g in 0..27 {
        let counter = values.of_group(group(g));
        for d in 1..=9 {
            assert_eq!(9, counter.count(digit(d)));
        }
    }
}

#[test]
fn remove_possibility_updates_counters() {
    let mut values = PossibleValues::all();
    let cell = cell_at(0);

    let removed = values.remove_possibility(cell, digit(5));
    assert_eq!(Some(digit(5)), removed);

    assert!(!values.of_cell(cell).has(digit(5)));
    assert_eq!(8, values.of_cell(cell).size());

    //  The three covering groups lost one occurrence of the digit.
    assert_eq!(8, values.of_group(Group::column(cell)).count(digit(5)));
    assert_eq!(8, values.of_group(Group::row(cell)).count(digit(5)));
    assert_eq!(8, values.of_group(Group::square(cell)).count(digit(5)));

    //  No other group or digit was touched.
    assert_eq!(9, values.of_group(group(3)).count(digit(5)));
    assert_eq!(9, values.of_group(Group::column(cell)).count(digit(4)));

    //  No other cell was touched.
    assert!(values.of_cell(cell_at(1)).has(digit(5)));
}

#[test]
fn remove_possibility_twice_is_absent() {
    let mut values = PossibleValues::all();
    let cell = cell_at(40);

    let first = values.remove_possibility(cell, digit(2));
    assert_eq!(Some(digit(2)), first);

    let snapshot = values;
    let second = values.remove_possibility(cell, digit(2));

    //  The second call returns absent and changes no state.
    assert_eq!(None, second);
    assert_eq!(snapshot, values);
}

#[test]
fn resolve_returns_removed_candidates() {
    let mut values = PossibleValues::all();
    let cell = cell_at(10);

    values.remove_possibility(cell, digit(4));

    let removed = values.resolve(cell, digit(7));

    //  The cell now holds exactly the resolved digit.
    assert_eq!(1, values.of_cell(cell).size());
    assert!(values.of_cell(cell).has(digit(7)));

    //  The removed set is exactly the pre-call candidate set minus the
    //  resolved digit.
    assert_eq!(7, removed.size());
    for d in [1, 2, 3, 5, 6, 8, 9] {
        assert!(removed.has(digit(d)));
    }
    assert!(!removed.has(digit(4)));
    assert!(!removed.has(digit(7)));

    //  No other cell was touched.
    assert_eq!(9, values.of_cell(cell_at(11)).size());
}

fn cell_at(index: usize) -> CellIndex {
    CellIndex::new(index).expect("Valid CellIndex")
}

fn digit(digit: usize) -> Digit {
    Digit::new(digit).expect("Valid Digit")
}

fn group(index: usize) -> Group {
    Group::new(sudidakt::model::index::GroupIndex::new(index).expect("Valid GroupIndex"))
}
