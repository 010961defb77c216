use sudidakt::model::digit::Digit;
use sudidakt::model::index::CellIndex;
use sudidakt::solver::journal::JournalCursor;
use sudidakt::solver::journal::JournalMultiCursor;
use sudidakt::solver::journal::JournalWriter;
use sudidakt::solver::placement::Placement;

fn placement(cell: usize, digit: usize) -> Placement {
    Placement::new(
        CellIndex::new(cell).expect("Valid CellIndex"),
        Digit::new(digit).expect("Valid Digit"),
    )
}

#[test]
fn journal_append_and_read() {
    let mut journal: JournalWriter<Placement> = JournalWriter::new();
    assert_eq!(0, journal.len());
    assert_eq!(None, journal.get_event(0));

    journal.append_event(placement(0, 1));
    journal.append_event(placement(1, 2));

    assert_eq!(2, journal.len());
    assert_eq!(Some(placement(0, 1)), journal.get_event(0));
    assert_eq!(Some(placement(1, 2)), journal.get_event(1));
    assert_eq!(None, journal.get_event(2));

    let reader = journal.reader();
    assert_eq!(2, reader.len());
    assert_eq!(Some(placement(1, 2)), reader.get_event(1));
    assert_eq!(vec![placement(0, 1), placement(1, 2)], reader.get_events());
}

#[test]
fn journal_cursor_replays_in_order() {
    let mut journal: JournalWriter<Placement> = JournalWriter::new();
    journal.append_event(placement(3, 4));

    let mut cursor = JournalCursor::new();
    assert!(!cursor.is_done(&journal));

    assert_eq!(Some(placement(3, 4)), cursor.handle_next(&journal));
    assert!(cursor.is_done(&journal));
    assert_eq!(None, cursor.handle_next(&journal));

    //  The cursor becomes not-done again as the writer appends.
    journal.append_event(placement(5, 6));
    assert!(!cursor.is_done(&journal));
    assert_eq!(Some(placement(5, 6)), cursor.handle_next(&journal));
    assert!(cursor.is_done(&journal));
}

#[test]
fn journal_multi_cursor_paces_independently() {
    let mut journal: JournalWriter<Placement> = JournalWriter::new();
    journal.append_event(placement(0, 1));
    journal.append_event(placement(1, 2));

    let mut cursors: JournalMultiCursor<3> = JournalMultiCursor::new();

    assert_eq!(Some(placement(0, 1)), cursors.handle_next(0, &journal));
    assert_eq!(Some(placement(1, 2)), cursors.handle_next(0, &journal));
    assert!(cursors.is_done(0, &journal));
    assert_eq!(None, cursors.handle_next(0, &journal));

    //  The other cursors have not moved.
    assert!(!cursors.is_done(1, &journal));
    assert_eq!(Some(placement(0, 1)), cursors.handle_next(1, &journal));
    assert!(!cursors.is_done(1, &journal));
    assert!(!cursors.is_done(2, &journal));
}
