use sudidakt::model::digit::Digit;
use sudidakt::model::grid::Grid;
use sudidakt::model::index::CellIndex;
use sudidakt::model::index::ColumnIndex;
use sudidakt::model::index::RowIndex;
use sudidakt::solver::journal::JournalWriter;
use sudidakt::solver::placer::Placer;
use sudidakt::solver::refinement::Refinement;
use sudidakt::solver::solver::Solver;

fn cell(row: usize, column: usize) -> CellIndex {
    CellIndex::from_coordinates(
        RowIndex::new(row).expect("Valid row"),
        ColumnIndex::new(column).expect("Valid column"),
    )
}

fn digit(digit: usize) -> Digit {
    Digit::new(digit).expect("Valid Digit")
}

//  A full, valid solution: each row is a cyclic shift of 1..=9, with shifts
//  chosen so that every column and square holds each digit once.
fn solution_digit(row: usize, column: usize) -> usize {
    (3 * (row % 3) + row / 3 + column) % 9 + 1
}

#[test]
fn single_missing_cell_is_solved() {
    //  A grid with exactly one empty cell, whose row, column, and square
    //  collectively already contain the other 8 digits.
    let mut grid = Grid::new();
    for row in 0..9 {
        for column in 0..9 {
            if (row, column) != (0, 0) {
                grid.set_digit(cell(row, column), Some(digit(solution_digit(row, column))));
            }
        }
    }
    assert_eq!(80, grid.number_solved());

    let mut solver = Solver::new(grid);
    assert!(solver.solve().is_ok());

    assert_eq!(81, solver.grid().number_solved());
    assert_eq!(
        Some(digit(solution_digit(0, 0))),
        solver.grid().get_digit(cell(0, 0)),
    );
}

#[test]
fn empty_grid_stalls_immediately() {
    //  A completely empty grid: no placement is derivable without givens.
    let mut solver = Solver::new(Grid::new());

    assert!(solver.solve().is_err());
    assert_eq!(0, solver.grid().number_solved());
    assert_eq!(0, solver.placements().len());
    assert_eq!(0, solver.refinements().len());
}

#[test]
fn full_puzzle_is_solved() {
    //  Removing the whole first row of a full solution leaves a puzzle that
    //  single-candidate elimination completes.
    let mut grid = Grid::new();
    for row in 1..9 {
        for column in 0..9 {
            grid.set_digit(cell(row, column), Some(digit(solution_digit(row, column))));
        }
    }

    let mut solver = Solver::new(grid);
    assert!(solver.solve().is_ok());

    assert_eq!(81, solver.grid().number_solved());
    for row in 0..9 {
        for column in 0..9 {
            assert_eq!(
                Some(digit(solution_digit(row, column))),
                solver.grid().get_digit(cell(row, column)),
            );
        }
    }
}

#[test]
fn conflicting_manual_placement_is_rejected() {
    let mut solver = Solver::new(Grid::new());

    assert!(solver.set_digit(cell(0, 0), digit(5)).is_ok());

    //  Another 5 in the same row is rejected, naming (0, 0).
    let error = solver.set_digit(cell(0, 1), digit(5)).expect_err("Conflict");
    assert_eq!(5, error.digit().value());
    assert_eq!(cell(0, 1).value(), error.candidate().value());
    assert_eq!(cell(0, 0).value(), error.conflicting().value());

    //  The grid is unchanged by the rejected call.
    assert_eq!(None, solver.grid().get_digit(cell(0, 1)));
    assert_eq!(Some(digit(5)), solver.grid().get_digit(cell(0, 0)));
    assert_eq!(1, solver.grid().number_solved());
}

#[test]
fn pointing_pair_excludes_row() {
    //  Fill the lower two rows of the first square: digit 7's only remaining
    //  candidate cells of that square lie within its first-row slice, so 7
    //  cannot appear in the rest of that full row.
    let mut grid = Grid::new();
    grid.set_digit(cell(1, 0), Some(digit(1)));
    grid.set_digit(cell(1, 1), Some(digit(2)));
    grid.set_digit(cell(1, 2), Some(digit(3)));
    grid.set_digit(cell(2, 0), Some(digit(4)));
    grid.set_digit(cell(2, 1), Some(digit(5)));
    grid.set_digit(cell(2, 2), Some(digit(6)));

    let mut solver = Solver::new(grid);
    while solver.refine().is_ok() {}

    let values = solver.possible_values();

    //  Digit 7 remains possible within the square's own row slice.
    assert!(values.of_cell(cell(0, 0)).has(digit(7)));
    assert!(values.of_cell(cell(0, 1)).has(digit(7)));
    assert!(values.of_cell(cell(0, 2)).has(digit(7)));

    //  Digit 7 is removed from every other cell of the full row.
    for column in 3..9 {
        assert!(!values.of_cell(cell(0, column)).has(digit(7)));
    }
}

#[test]
fn naked_pair_excludes_row() {
    //  Two cells of row 0, in different squares, are both narrowed down to
    //  exactly {2, 6} by their columns: those two digits can then only appear
    //  in those two cells of the row.
    let mut grid = Grid::new();
    let column_0 = [1, 3, 4, 5, 7, 8, 9];
    let column_4 = [3, 1, 5, 4, 8, 9, 7];
    for row in 1..8 {
        grid.set_digit(cell(row, 0), Some(digit(column_0[row - 1])));
        grid.set_digit(cell(row, 4), Some(digit(column_4[row - 1])));
    }

    let mut solver = Solver::new(grid);
    while solver.refine().is_ok() {}

    let values = solver.possible_values();

    //  The pair cells hold exactly {2, 6}.
    for pair_cell in [cell(0, 0), cell(0, 4)] {
        assert_eq!(2, values.of_cell(pair_cell).size());
        assert!(values.of_cell(pair_cell).has(digit(2)));
        assert!(values.of_cell(pair_cell).has(digit(6)));
    }

    //  Digits 2 and 6 are removed from every other cell of the row.
    for column in [1, 2, 3, 5, 6, 7, 8] {
        assert!(!values.of_cell(cell(0, column)).has(digit(2)));
        assert!(!values.of_cell(cell(0, column)).has(digit(6)));
    }
}

#[test]
fn solve_is_deterministic() {
    //  Identical input grids always yield the same final grid and the same
    //  ordered placement and refinement sequences.
    let mut grid = Grid::new();
    for row in 1..9 {
        for column in 0..9 {
            grid.set_digit(cell(row, column), Some(digit(solution_digit(row, column))));
        }
    }

    let mut first = Solver::new(grid);
    let mut second = Solver::new(grid);

    assert_eq!(first.solve().is_ok(), second.solve().is_ok());

    assert_eq!(first.grid(), second.grid());
    assert_eq!(first.placements().get_events(), second.placements().get_events());
    assert_eq!(first.refinements().get_events(), second.refinements().get_events());
}

#[test]
fn analyzer_and_placer_copies_agree() {
    //  The Analyzer's and the Placer's independently-held copies of the
    //  possible values reach identical state when fed the same prefix of the
    //  same journals: replaying the refinement journal through a fresh Placer
    //  reproduces, bit for bit, the possible values the Analyzer holds.
    let mut grid = Grid::new();
    grid.set_digit(cell(0, 0), Some(digit(1)));
    grid.set_digit(cell(1, 3), Some(digit(2)));
    grid.set_digit(cell(4, 4), Some(digit(3)));
    grid.set_digit(cell(8, 8), Some(digit(9)));

    let mut solver = Solver::new(grid);
    let _ = solver.solve();

    let mut journal: JournalWriter<Refinement> = JournalWriter::new();
    for event in solver.refinements().get_events() {
        journal.append_event(event);
    }

    let mut replayed = Placer::new();
    for c in 0..81 {
        let index = CellIndex::new(c).expect("Valid CellIndex");
        if let Some(given) = grid.get_digit(index) {
            replayed.set_digit(index, given);
        }
    }
    loop {
        if replayed.is_done(&journal) {
            break;
        }
        replayed.handle_next_refinement(&journal);
    }

    assert_eq!(solver.possible_values(), replayed.possible_values());
}

#[test]
fn place_and_refine_step_by_step() {
    //  The interactive entry points alternate like the solve loop does.
    let mut grid = Grid::new();
    for row in 1..9 {
        for column in 0..9 {
            grid.set_digit(cell(row, column), Some(digit(solution_digit(row, column))));
        }
    }

    let mut solver = Solver::new(grid);

    //  No refinement exists yet, so no placement can be made.
    assert!(solver.place().is_err());

    //  One round of analysis produces refinements...
    assert!(solver.refine().is_ok());
    assert!(solver.refinements().len() > 0);

    //  ... and draining refinements eventually yields a placement.
    let mut placed = false;
    loop {
        if solver.place().is_ok() {
            placed = true;
            break;
        }
        if solver.refine().is_err() {
            break;
        }
    }
    assert!(placed);
    assert_eq!(73, solver.grid().number_solved());
}

#[test]
fn manual_placement_feeds_the_solve() {
    //  A manual placement is journaled like an initial given.
    let mut solver = Solver::new(Grid::new());

    assert!(solver.set_digit(cell(4, 4), digit(9)).is_ok());

    assert_eq!(1, solver.placements().len());
    assert_eq!(Some(digit(9)), solver.grid().get_digit(cell(4, 4)));

    //  The placer's copy, the one a manual placement consults, collapsed the
    //  cell to the placed digit.
    let placer_values = solver.placer_possible_values();
    assert_eq!(1, placer_values.of_cell(cell(4, 4)).size());
    assert!(placer_values.of_cell(cell(4, 4)).has(digit(9)));

    //  The single given is not enough to progress further.
    assert!(solver.solve().is_err());
    assert_eq!(1, solver.grid().number_solved());

    //  The deductions it allows are journaled all the same.
    assert!(solver.refinements().len() > 0);
    assert!(!solver.possible_values().of_cell(cell(4, 0)).has(digit(9)));
}
