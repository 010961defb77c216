use std::ops::Range;

use sudidakt::model::dimension::DIMENSION;
use sudidakt::model::dimension::SQUARE_DIMENSION;
use sudidakt::model::index::CellIndex;
use sudidakt::model::index::ColumnIndex;
use sudidakt::model::index::RowIndex;
use sudidakt::model::index::SquareIndex;

#[test]
fn valid_columns() {
    for i in 0..DIMENSION {
        assert_eq!(i, ColumnIndex::new(i).expect("Valid").value());
    }
}

#[test]
fn invalid_column() {
    assert_eq!(None, ColumnIndex::new(DIMENSION));
}

#[test]
fn valid_rows() {
    for i in 0..DIMENSION {
        assert_eq!(i, RowIndex::new(i).expect("Valid").value());
    }
}

#[test]
fn invalid_row() {
    assert_eq!(None, RowIndex::new(DIMENSION));
}

#[test]
fn valid_square() {
    for i in 0..DIMENSION {
        assert_eq!(i, SquareIndex::new(i).expect("Valid").value());
    }
}

#[test]
fn invalid_square() {
    assert_eq!(None, SquareIndex::new(DIMENSION));
}

const COLUMNS_PER_SQUARE: [Range<usize>; DIMENSION] =
    [0..3, 3..6, 6..9, 0..3, 3..6, 6..9, 0..3, 3..6, 6..9];
const ROWS_PER_SQUARE: [Range<usize>; DIMENSION] =
    [0..3, 0..3, 0..3, 3..6, 3..6, 3..6, 6..9, 6..9, 6..9];

#[test]
fn square_from_row_column() {
    for (index, (rows, columns)) in ROWS_PER_SQUARE.iter().zip(COLUMNS_PER_SQUARE.iter()).enumerate()
    {
        for row in rows.clone() {
            for column in columns.clone() {
                let row = RowIndex::new(row).unwrap();
                let column = ColumnIndex::new(column).unwrap();

                let square = SquareIndex::from_coordinates(row, column);

                assert_eq!(index, square.value(), "Row: {row:?}, Column: {column:?}");
            }
        }
    }
}

#[test]
fn square_columns() {
    let mut all = SquareIndex::all();

    while let Some(square_index) = all.next() {
        let mut columns = square_index.columns();
        let mut count = 0;
        while let Some(_) = columns.next() {
            count += 1;
        }
        assert_eq!(SQUARE_DIMENSION, count);

        let expected = COLUMNS_PER_SQUARE[square_index.value()].clone();

        let mut columns = square_index.columns();
        for expected in expected {
            let actual = columns.next().unwrap();
            assert_eq!(expected, actual.value());
        }
    }
}

#[test]
fn square_rows() {
    let mut all = SquareIndex::all();

    while let Some(square_index) = all.next() {
        let mut rows = square_index.rows();
        let mut count = 0;
        while let Some(_) = rows.next() {
            count += 1;
        }
        assert_eq!(SQUARE_DIMENSION, count);

        let expected = ROWS_PER_SQUARE[square_index.value()].clone();

        let mut rows = square_index.rows();
        for expected in expected {
            let actual = rows.next().unwrap();
            assert_eq!(expected, actual.value());
        }
    }
}

#[test]
fn cell_column_row() {
    for row in 0..DIMENSION {
        for column in 0..DIMENSION {
            let cell = CellIndex::new(row * DIMENSION + column).unwrap();

            assert_eq!(column, cell.column().value(), "Row: {row}, Column: {column}");
            assert_eq!(row, cell.row().value(), "Row: {row}, Column: {column}");
        }
    }
}
