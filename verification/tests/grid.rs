use sudidakt::model::digit::Digit;
use sudidakt::model::grid::parse_grid;
use sudidakt::model::grid::Grid;
use sudidakt::model::index::CellIndex;
use sudidakt::model::index::ColumnIndex;
use sudidakt::model::index::RowIndex;

#[test]
fn empty_grid() {
    let grid = Grid::new();

    assert_eq!(0, grid.number_solved());
    for c in 0..81 {
        assert!(grid.get_digit(cell_at(c)).is_none());
    }
}

#[test]
fn grid_set_digit_tracks_solved() {
    let mut grid = Grid::new();

    let previous = grid.set_digit(cell_at(0), Some(digit(5)));
    assert!(previous.is_none());
    assert_eq!(1, grid.number_solved());

    let previous = grid.set_digit(cell_at(0), Some(digit(7)));
    assert_eq!(Some(digit(5)), previous);
    assert_eq!(1, grid.number_solved());

    let previous = grid.set_digit(cell_at(0), None);
    assert_eq!(Some(digit(7)), previous);
    assert_eq!(0, grid.number_solved());
}

#[test]
fn grid_conflicts() {
    let mut grid = Grid::new();

    //  A 5 placed at (0, 0).
    grid.set_digit(cell(0, 0), Some(digit(5)));

    //  A second 5 in the same row conflicts.
    let conflicting = grid.get_conflicting(cell(0, 7), digit(5));
    assert_eq!(0, conflicting.expect("Row conflict").value());

    //  A second 5 in the same column conflicts.
    let conflicting = grid.get_conflicting(cell(6, 0), digit(5));
    assert_eq!(0, conflicting.expect("Column conflict").value());

    //  A second 5 in the same square conflicts.
    let conflicting = grid.get_conflicting(cell(1, 1), digit(5));
    assert_eq!(0, conflicting.expect("Square conflict").value());

    //  Another digit in the same row does not conflict.
    assert!(grid.get_conflicting(cell(0, 7), digit(6)).is_none());

    //  The same digit in an unrelated cell does not conflict.
    assert!(grid.get_conflicting(cell(5, 5), digit(5)).is_none());
}

#[test]
fn grid_conflicts_scan_order() {
    let mut grid = Grid::new();

    //  Both a column conflict, at (5, 3), and a row conflict, at (4, 8): the
    //  covering groups are scanned column first.
    grid.set_digit(cell(5, 3), Some(digit(2)));
    grid.set_digit(cell(4, 8), Some(digit(2)));

    let conflicting = grid.get_conflicting(cell(4, 3), digit(2));
    assert_eq!(cell(5, 3).value(), conflicting.expect("Conflicting").value());
}

#[test]
fn parse_empty_grid() {
    let grid = parse_grid(b"");
    assert_eq!(0, grid.number_solved());

    let all_unknown =
        "000000000 000000000 000000000 000000000 000000000 000000000 000000000 000000000 000000000";
    let grid = parse_grid(all_unknown.as_bytes());
    assert_eq!(0, grid.number_solved());
}

#[test]
fn parse_partial_grid() {
    let grid = parse_grid(b"53..7....6..195....98....6.");

    assert_eq!(Some(digit(5)), grid.get_digit(cell(0, 0)));
    assert_eq!(Some(digit(3)), grid.get_digit(cell(0, 1)));
    assert_eq!(None, grid.get_digit(cell(0, 2)));
    assert_eq!(Some(digit(7)), grid.get_digit(cell(0, 4)));
    assert_eq!(Some(digit(6)), grid.get_digit(cell(1, 0)));
    assert_eq!(Some(digit(1)), grid.get_digit(cell(1, 3)));
    assert_eq!(Some(digit(9)), grid.get_digit(cell(1, 4)));
    assert_eq!(Some(digit(5)), grid.get_digit(cell(1, 5)));
    assert_eq!(Some(digit(9)), grid.get_digit(cell(2, 1)));
    assert_eq!(Some(digit(8)), grid.get_digit(cell(2, 2)));
    assert_eq!(Some(digit(6)), grid.get_digit(cell(2, 7)));
    assert_eq!(10, grid.number_solved());
}

#[test]
fn parse_stops_at_comma() {
    let grid = parse_grid(b"12,345");

    assert_eq!(Some(digit(1)), grid.get_digit(cell(0, 0)));
    assert_eq!(Some(digit(2)), grid.get_digit(cell(0, 1)));
    assert_eq!(None, grid.get_digit(cell(0, 2)));
    assert_eq!(2, grid.number_solved());
}

fn cell(row: usize, column: usize) -> CellIndex {
    CellIndex::from_coordinates(
        RowIndex::new(row).expect("Valid row"),
        ColumnIndex::new(column).expect("Valid column"),
    )
}

fn cell_at(index: usize) -> CellIndex {
    CellIndex::new(index).expect("Valid CellIndex")
}

fn digit(digit: usize) -> Digit {
    Digit::new(digit).expect("Valid Digit")
}
