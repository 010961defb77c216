//! Indexes for the grid.

use core::marker::PhantomData;
use vstd::prelude::*;

use crate::model::dimension::DIMENSION;
use crate::model::dimension::NUMBER_CELLS;
use crate::model::dimension::NUMBER_GROUPS;
use crate::model::dimension::SQUARE_DIMENSION;

verus! {

/// Tag of `ColumnIndex`.
#[derive(Clone, Copy, Debug, PartialEq, Eq, Hash, PartialOrd, Ord)]
pub struct ColumnTag;

/// Index of a column of the grid, 0-based.
pub type ColumnIndex = Index<ColumnTag, DIMENSION>;

/// Tag of `RowIndex`.
#[derive(Clone, Copy, Debug, PartialEq, Eq, Hash, PartialOrd, Ord)]
pub struct RowTag;

/// Index of a row of the grid, 0-based.
pub type RowIndex = Index<RowTag, DIMENSION>;

/// Tag of `CellIndex`.
#[derive(Clone, Copy, Debug, PartialEq, Eq, Hash, PartialOrd, Ord)]
pub struct CellTag;

/// Index of a cell of the grid, 0-based.
///
/// Arbitrarily, the first cells are (0,0), (0,1), ...
pub type CellIndex = Index<CellTag, NUMBER_CELLS>;

/// Tag of `SquareIndex`.
#[derive(Clone, Copy, Debug, PartialEq, Eq, Hash, PartialOrd, Ord)]
pub struct SquareTag;

/// Index of a square of the grid, 0-based.
pub type SquareIndex = Index<SquareTag, DIMENSION>;

/// Tag of `GroupIndex`.
#[derive(Clone, Copy, Debug, PartialEq, Eq, Hash, PartialOrd, Ord)]
pub struct GroupTag;

/// Index of a group of the grid, 0-based: 9 columns, then 9 rows, then 9
/// squares.
pub type GroupIndex = Index<GroupTag, NUMBER_GROUPS>;

/// The column of the cell at index `cell`.
pub open spec fn column_of(cell: int) -> int {
    cell % 9
}

/// The row of the cell at index `cell`.
pub open spec fn row_of(cell: int) -> int {
    cell / 9
}

/// The square of the cell at index `cell`.
pub open spec fn square_of(cell: int) -> int {
    (row_of(cell) / 3) * 3 + column_of(cell) / 3
}

/// A generic Index type.
///
/// The `Tag` allows differentiating multiple indexes with the same other
/// characteristics; it is expected to be a zero-sized value. An index can only
/// take values within the `0..BOUND` range.
#[derive(Debug, PartialEq, Eq, Hash, PartialOrd, Ord)]
pub struct Index<Tag, const BOUND: usize>(u8, PhantomData<Tag>);

impl<Tag, const BOUND: usize> Clone for Index<Tag, BOUND> {
    fn clone(&self) -> (r: Self)
        ensures
            r == *self,
    {
        proof {
            use_type_invariant(self);
        }
        Index(self.0, PhantomData)
    }
}

impl<Tag, const BOUND: usize> Copy for Index<Tag, BOUND> {

}

impl<Tag, const BOUND: usize> View for Index<Tag, BOUND> {
    type V = int;

    closed spec fn view(&self) -> int {
        self.0 as int
    }
}

impl<Tag, const BOUND: usize> Index<Tag, BOUND> {
    /// An index always falls in the `0..BOUND` range.
    #[verifier::type_invariant]
    pub open spec fn type_inv(self) -> bool {
        0 <= self@ < BOUND
    }

    /// Creates an iterator which iterates over the entire range of possible
    /// values of the index.
    pub fn all() -> (r: IndexRangeIterator<Tag, BOUND>)
        ensures
            r.position() == 0,
            r.end() == BOUND,
    {
        IndexRangeIterator { current: 0, until: BOUND, marker: PhantomData }
    }

    /// Creates an index from the specified value, if within bounds.
    pub fn new(value: usize) -> (r: Option<Index<Tag, BOUND>>)
        ensures
            r is Some <==> value < BOUND && value <= u8::MAX,
            match r {
                Some(index) => index@ == value,
                None => true,
            },
    {
        if value < BOUND && value <= u8::MAX as usize {
            Some(Index(value as u8, PhantomData))
        } else {
            None
        }
    }

    /// Returns the actual value of the index.
    pub fn value(&self) -> (r: usize)
        ensures
            r == self@,
            r < BOUND,
    {
        proof {
            use_type_invariant(self);
        }
        self.0 as usize
    }
}

impl Index<CellTag, NUMBER_CELLS> {
    /// Creates an instance from the row and column indexes.
    pub fn from_coordinates(row: RowIndex, column: ColumnIndex) -> (r: Self)
        ensures
            r@ == row@ * 9 + column@,
    {
        let row_offset = DIMENSION * row.value();

        Index((row_offset + column.value()) as u8, PhantomData)
    }

    /// Returns the column index of the cell.
    pub fn column(&self) -> (r: ColumnIndex)
        ensures
            r@ == column_of(self@),
    {
        proof {
            use_type_invariant(self);
        }
        let index = self.value() % DIMENSION;

        Index(index as u8, PhantomData)
    }

    /// Returns the row index of the cell.
    pub fn row(&self) -> (r: RowIndex)
        ensures
            r@ == row_of(self@),
    {
        proof {
            use_type_invariant(self);
        }
        let index = self.value() / DIMENSION;

        Index(index as u8, PhantomData)
    }

    /// Returns the square index of the cell.
    pub fn square(&self) -> (r: SquareIndex)
        ensures
            r@ == square_of(self@),
    {
        SquareIndex::from_coordinates(self.row(), self.column())
    }
}

impl Index<SquareTag, DIMENSION> {
    /// Creates an instance from the row and column indexes.
    pub fn from_coordinates(row: RowIndex, column: ColumnIndex) -> (r: Self)
        ensures
            r@ == (row@ / 3) * 3 + column@ / 3,
    {
        let row_offset = SQUARE_DIMENSION * (row.value() / SQUARE_DIMENSION);
        let column_offset = column.value() / SQUARE_DIMENSION;

        let index = row_offset + column_offset;

        Index(index as u8, PhantomData)
    }

    /// Creates an iterator over all the columns covered by the square.
    pub fn columns(&self) -> (r: IndexRangeIterator<ColumnTag, DIMENSION>)
        ensures
            r.position() == SQUARE_DIMENSION * (self@ % 3),
            r.end() == r.position() + SQUARE_DIMENSION,
    {
        proof {
            use_type_invariant(self);
        }
        let start_column = SQUARE_DIMENSION * (self.value() % SQUARE_DIMENSION);
        let end_column = start_column + SQUARE_DIMENSION;

        IndexRangeIterator { current: start_column, until: end_column, marker: PhantomData }
    }

    /// Creates an iterator over all the rows covered by the square.
    pub fn rows(&self) -> (r: IndexRangeIterator<RowTag, DIMENSION>)
        ensures
            r.position() == SQUARE_DIMENSION * (self@ / 3),
            r.end() == r.position() + SQUARE_DIMENSION,
    {
        proof {
            use_type_invariant(self);
        }
        let start_row = SQUARE_DIMENSION * (self.value() / SQUARE_DIMENSION);
        let end_row = start_row + SQUARE_DIMENSION;

        IndexRangeIterator { current: start_row, until: end_row, marker: PhantomData }
    }
}

/// An iterator over a range of index values, in ascending order.
#[derive(Debug, PartialEq, Eq, Hash)]
pub struct IndexRangeIterator<Tag, const BOUND: usize> {
    current: usize,
    until: usize,
    marker: PhantomData<Tag>,
}

impl<Tag, const BOUND: usize> Clone for IndexRangeIterator<Tag, BOUND> {
    fn clone(&self) -> (r: Self)
        ensures
            r == *self,
    {
        proof {
            use_type_invariant(self);
        }
        IndexRangeIterator { current: self.current, until: self.until, marker: PhantomData }
    }
}

impl<Tag, const BOUND: usize> IndexRangeIterator<Tag, BOUND> {
    #[verifier::type_invariant]
    spec fn type_inv(self) -> bool {
        self.until <= BOUND
    }

    /// The next value the iterator will produce, if any.
    pub closed spec fn position(self) -> int {
        self.current as int
    }

    /// The first value beyond the range iterated over.
    pub closed spec fn end(self) -> int {
        self.until as int
    }

    /// Creates a new range iterator over `start..end`, if within bounds.
    pub fn new(start: usize, end: usize) -> (r: Option<Self>)
        ensures
            r is Some <==> start <= BOUND && end <= BOUND,
            match r {
                Some(iterator) => iterator.position() == start && iterator.end() == end,
                None => true,
            },
    {
        if start <= BOUND && end <= BOUND {
            Some(IndexRangeIterator { current: start, until: end, marker: PhantomData })
        } else {
            None
        }
    }

    /// Returns the next index of the range, if any.
    pub fn next(&mut self) -> (r: Option<Index<Tag, BOUND>>)
        ensures
            old(self).position() < old(self).end() ==> {
                &&& final(self).position() == old(self).position() + 1
                &&& final(self).end() == old(self).end()
                &&& old(self).position() <= u8::MAX ==> (r matches Some(index) && index@ == old(
                    self,
                ).position())
            },
            old(self).position() >= old(self).end() ==> r is None && *final(self) == *old(self),
    {
        proof {
            use_type_invariant(&*self);
        }
        if self.current >= self.until {
            return None;
        }

        let value = self.current;
        self.current = value + 1;

        Index::new(value)
    }
}

} // verus!
