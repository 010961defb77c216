//! The various groups existing in a sudoku grid.

use vstd::prelude::*;

use crate::model::dimension::DIMENSION;
use crate::model::dimension::SQUARE_DIMENSION;
use crate::model::index::column_of;
use crate::model::index::row_of;
use crate::model::index::square_of;
use crate::model::index::CellIndex;
use crate::model::index::ColumnIndex;
use crate::model::index::GroupIndex;
use crate::model::index::RowIndex;
use crate::model::index::SquareIndex;

verus! {

/// The group at the given rank among the three covering the cell at index
/// `cell`: its column first, then its row, then its square.
pub open spec fn covering_group(cell: int, which: int) -> int {
    if which == 0 {
        column_of(cell)
    } else if which == 1 {
        9 + row_of(cell)
    } else {
        18 + square_of(cell)
    }
}

/// Whether the two cells share a covering group: same column, same row, or
/// same square.
pub open spec fn cells_share_group(cell: int, other: int) -> bool {
    ||| column_of(cell) == column_of(other)
    ||| row_of(cell) == row_of(other)
    ||| square_of(cell) == square_of(other)
}

/// Whether the cell at index `cell` is covered by the group at index `group`.
pub open spec fn group_contains_cell(group: int, cell: int) -> bool {
    ||| group == column_of(cell)
    ||| group == 9 + row_of(cell)
    ||| group == 18 + square_of(cell)
}

/// The cell at the given position of the group at index `group`, in stored
/// order: ascending rows for a column, ascending columns for a row, row-major
/// for a square.
pub open spec fn group_cell(group: int, position: int) -> int
    recommends
        0 <= group < 27,
        0 <= position < 9,
{
    if group < 9 {
        position * 9 + group
    } else if group < 18 {
        (group - 9) * 9 + position
    } else {
        (((group - 18) / 3) * 3 + position / 3) * 9 + ((group - 18) % 3) * 3 + position % 3
    }
}

/// The position of the cell at index `cell` within the group at index
/// `group`.
pub open spec fn cell_position(group: int, cell: int) -> int
    recommends
        group_contains_cell(group, cell),
{
    if group < 9 {
        row_of(cell)
    } else if group < 18 {
        column_of(cell)
    } else {
        (row_of(cell) % 3) * 3 + column_of(cell) % 3
    }
}

/// Every position of a group holds a cell of that group, at that position.
pub proof fn lemma_group_cell_in_group(group: int, position: int)
    requires
        0 <= group < 27,
        0 <= position < 9,
    ensures
        0 <= group_cell(group, position) < 81,
        group_contains_cell(group, group_cell(group, position)),
        cell_position(group, group_cell(group, position)) == position,
{
    if group < 9 {
        lemma_cell_coordinates(position, group);
    } else if group < 18 {
        lemma_cell_coordinates(group - 9, position);
    } else {
        let s = group - 18;
        let row = (s / 3) * 3 + position / 3;
        let column = (s % 3) * 3 + position % 3;
        lemma_cell_coordinates(row, column);
        assert(row / 3 == s / 3 && row % 3 == position / 3) by (nonlinear_arith)
            requires
                row == (s / 3) * 3 + position / 3,
                0 <= s < 9,
                0 <= position < 9,
        ;
        assert(column / 3 == s % 3 && column % 3 == position % 3) by (nonlinear_arith)
            requires
                column == (s % 3) * 3 + position % 3,
                0 <= s < 9,
                0 <= position < 9,
        ;
    }
}

/// Every cell covered by a group is produced by that group, at its position.
pub proof fn lemma_cell_in_groups(group: int, cell: int)
    requires
        0 <= group < 27,
        0 <= cell < 81,
        group_contains_cell(group, cell),
    ensures
        0 <= cell_position(group, cell) < 9,
        group_cell(group, cell_position(group, cell)) == cell,
{
    let row = row_of(cell);
    let column = column_of(cell);
    lemma_cell_coordinates(row, column);
    assert(cell == row * 9 + column);
    if group >= 18 {
        let s = square_of(cell);
        let position = (row % 3) * 3 + column % 3;
        assert(s / 3 == row / 3 && s % 3 == column / 3) by (nonlinear_arith)
            requires
                s == (row / 3) * 3 + column / 3,
                0 <= row < 9,
                0 <= column < 9,
        ;
        assert(position / 3 == row % 3 && position % 3 == column % 3) by (nonlinear_arith)
            requires
                position == (row % 3) * 3 + column % 3,
                0 <= row < 9,
                0 <= column < 9,
        ;
        assert(group_cell(group, position) == ((row / 3) * 3 + row % 3) * 9 + (column / 3) * 3
            + column % 3);
        assert(((row / 3) * 3 + row % 3) * 9 + (column / 3) * 3 + column % 3 == row * 9 + column)
            by (nonlinear_arith)
            requires
                0 <= row < 9,
                0 <= column < 9,
        ;
    }
}

/// The row and column of the cell at `row * 9 + column`.
proof fn lemma_cell_coordinates(row: int, column: int)
    requires
        0 <= row < 9,
        0 <= column < 9,
    ensures
        0 <= row * 9 + column < 81,
        row_of(row * 9 + column) == row,
        column_of(row * 9 + column) == column,
    decreases row,
{
    assert((row * 9 + column) / 9 == row && (row * 9 + column) % 9 == column) by (nonlinear_arith)
        requires
            0 <= row < 9,
            0 <= column < 9,
    ;
}

/// Two cells covered by one group share a group.
pub proof fn lemma_shared_group(group: int, a: int, b: int)
    requires
        0 <= group < 27,
        0 <= a < 81,
        0 <= b < 81,
        group_contains_cell(group, a),
        group_contains_cell(group, b),
    ensures
        cells_share_group(a, b),
{
}

/// A group of cells existing in sudoku.
///
/// The rules of the sudoku are defined by group: in each group, each value
/// must appear exactly once.
#[derive(Clone, Copy, Debug, PartialEq, Eq, Hash)]
pub enum Group {
    /// A column of the grid.
    Column(ColumnIndex),
    /// A row of the grid.
    Row(RowIndex),
    /// A square of the grid.
    Square(SquareIndex),
}

impl View for Group {
    type V = int;

    /// A group denotes its flat index: columns, then rows, then squares.
    open spec fn view(&self) -> int {
        match *self {
            Group::Column(column) => column@,
            Group::Row(row) => 9 + row@,
            Group::Square(square) => 18 + square@,
        }
    }
}

impl Group {
    /// Returns the group matching the index.
    pub fn new(group: GroupIndex) -> (r: Group)
        ensures
            r@ == group@,
    {
        let value = group.value();
        if value < DIMENSION {
            Group::Column(ColumnIndex::new(value).unwrap())
        } else if value < 2 * DIMENSION {
            Group::Row(RowIndex::new(value - DIMENSION).unwrap())
        } else {
            Group::Square(SquareIndex::new(value - 2 * DIMENSION).unwrap())
        }
    }

    /// Returns the column covering the specified cell.
    pub fn column(cell: CellIndex) -> (r: Group)
        ensures
            r@ == column_of(cell@),
    {
        Group::Column(cell.column())
    }

    /// Returns the row covering the specified cell.
    pub fn row(cell: CellIndex) -> (r: Group)
        ensures
            r@ == 9 + row_of(cell@),
    {
        Group::Row(cell.row())
    }

    /// Returns the square covering the specified cell.
    pub fn square(cell: CellIndex) -> (r: Group)
        ensures
            r@ == 18 + square_of(cell@),
    {
        Group::Square(cell.square())
    }

    /// Returns the 3 groups covering the specified cell, column first, then
    /// row, then square.
    pub fn groups(cell: CellIndex) -> (r: [Group; 3])
        ensures
            r@[0]@ == column_of(cell@),
            r@[1]@ == 9 + row_of(cell@),
            r@[2]@ == 18 + square_of(cell@),
    {
        [Self::column(cell), Self::row(cell), Self::square(cell)]
    }

    /// Returns the index of the group.
    pub fn index(&self) -> (r: GroupIndex)
        ensures
            r@ == self@,
    {
        match *self {
            Group::Column(column) => GroupIndex::new(column.value()).unwrap(),
            Group::Row(row) => GroupIndex::new(row.value() + DIMENSION).unwrap(),
            Group::Square(square) => GroupIndex::new(square.value() + 2 * DIMENSION).unwrap(),
        }
    }

    /// Returns whether a cell is covered by the group.
    pub fn contains(&self, cell: CellIndex) -> (r: bool)
        ensures
            r == group_contains_cell(self@, cell@),
    {
        proof {
            use_type_invariant(&cell);
        }
        match *self {
            Group::Column(column) => {
                proof {
                    use_type_invariant(&column);
                }
                column.value() == cell.column().value()
            },
            Group::Row(row) => {
                proof {
                    use_type_invariant(&row);
                }
                row.value() == cell.row().value()
            },
            Group::Square(square) => {
                proof {
                    use_type_invariant(&square);
                }
                square.value() == cell.square().value()
            },
        }
    }

    /// Returns the cell at the given position of the group, in stored order.
    pub fn cell_at(&self, position: usize) -> (r: CellIndex)
        requires
            position < 9,
        ensures
            r@ == group_cell(self@, position as int),
    {
        match *self {
            Group::Column(column) => {
                proof {
                    use_type_invariant(&column);
                }
                let row = RowIndex::new(position).unwrap();
                CellIndex::from_coordinates(row, column)
            },
            Group::Row(row) => {
                proof {
                    use_type_invariant(&row);
                }
                let column = ColumnIndex::new(position).unwrap();
                CellIndex::from_coordinates(row, column)
            },
            Group::Square(square) => {
                let value = square.value();
                let row = RowIndex::new((value / 3) * 3 + position / 3).unwrap();
                let column = ColumnIndex::new((value % 3) * 3 + position % 3).unwrap();
                CellIndex::from_coordinates(row, column)
            },
        }
    }

    /// Returns the indexes of all cells covered by the group, in stored
    /// order.
    pub fn cells(&self) -> (r: [CellIndex; 9])
        ensures
            forall|k: int| 0 <= k < 9 ==> #[trigger] r@[k]@ == group_cell(self@, k),
    {
        let result = [
            self.cell_at(0),
            self.cell_at(1),
            self.cell_at(2),
            self.cell_at(3),
            self.cell_at(4),
            self.cell_at(5),
            self.cell_at(6),
            self.cell_at(7),
            self.cell_at(8),
        ];
        result
    }

    /// Returns the 2 other groups which cover the specified cell.
    pub fn other_groups(&self, cell: CellIndex) -> (r: [Group; 2])
        requires
            group_contains_cell(self@, cell@),
        ensures
            self@ < 9 ==> r@[0]@ == 9 + row_of(cell@) && r@[1]@ == 18 + square_of(cell@),
            9 <= self@ < 18 ==> r@[0]@ == column_of(cell@) && r@[1]@ == 18 + square_of(cell@),
            18 <= self@ ==> r@[0]@ == column_of(cell@) && r@[1]@ == 9 + row_of(cell@),
    {
        proof {
            use_type_invariant(&cell);
        }
        match *self {
            Group::Column(column) => {
                proof {
                    use_type_invariant(&column);
                }
                [Group::row(cell), Group::square(cell)]
            },
            Group::Row(row) => {
                proof {
                    use_type_invariant(&row);
                }
                [Group::column(cell), Group::square(cell)]
            },
            Group::Square(square) => {
                proof {
                    use_type_invariant(&square);
                }
                [Group::column(cell), Group::row(cell)]
            },
        }
    }
}

} // verus!
