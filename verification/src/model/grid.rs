//! The `Grid` is the simplest representation of the sudoku grid.

use vstd::prelude::*;

use crate::model::digit::Digit;
use crate::model::group::covering_group;
use crate::model::group::group_cell;
use crate::model::group::lemma_group_cell_in_group;
use crate::model::group::Group;
use crate::model::index::CellIndex;

verus! {

/// The number of known digits among the first `bound` cells.
pub open spec fn solved_count(cells: Seq<Option<Digit>>, bound: int) -> int
    decreases bound,
{
    if bound <= 0 {
        0
    } else {
        solved_count(cells, bound - 1) + if cells[bound - 1] is Some {
            1int
        } else {
            0
        }
    }
}

/// The number of known digits lies between 0 and `bound`.
pub proof fn lemma_solved_count_bounds(cells: Seq<Option<Digit>>, bound: int)
    requires
        0 <= bound,
    ensures
        0 <= solved_count(cells, bound) <= bound,
    decreases bound,
{
    if bound > 0 {
        lemma_solved_count_bounds(cells, bound - 1);
    }
}

/// Updating one cell changes the number of known digits by the difference at
/// that cell.
pub proof fn lemma_solved_count_update(
    cells: Seq<Option<Digit>>,
    updated: Seq<Option<Digit>>,
    cell: int,
    bound: int,
)
    requires
        0 <= cell < cells.len(),
        updated == cells.update(cell, updated[cell]),
        0 <= bound <= cells.len(),
    ensures
        solved_count(updated, bound) == solved_count(cells, bound) + if cell < bound {
            (if updated[cell] is Some {
                1int
            } else {
                0
            }) - (if cells[cell] is Some {
                1int
            } else {
                0
            })
        } else {
            0
        },
    decreases bound,
{
    if bound > 0 {
        lemma_solved_count_update(cells, updated, cell, bound - 1);
    }
}

/// A cell holding a digit contributes to the number of known digits.
pub proof fn lemma_solved_count_member(cells: Seq<Option<Digit>>, cell: int, bound: int)
    requires
        0 <= cell < bound,
        cells[cell] is Some,
    ensures
        solved_count(cells, bound) >= 1,
    decreases bound,
{
    lemma_solved_count_bounds(cells, cell);
    if cell < bound - 1 {
        lemma_solved_count_member(cells, cell, bound - 1);
        lemma_solved_count_bounds(cells, bound - 1);
    } else {
        lemma_solved_count_bounds(cells, bound - 1);
    }
}

/// The first conflicting cell for placing `digit` at `cell`, scanning the
/// three covering groups in order (column, row, square), each in stored cell
/// order, from flat scan position `from`; the cell itself is skipped.
pub open spec fn first_conflict(
    cells: Seq<Option<Digit>>,
    cell: int,
    digit: Digit,
    from: int,
) -> Option<int>
    decreases 27 - from,
{
    if from < 0 || from >= 27 {
        None
    } else {
        let candidate = group_cell(covering_group(cell, from / 9), from % 9);
        if candidate != cell && cells[candidate] == Some(digit) {
            Some(candidate)
        } else {
            first_conflict(cells, cell, digit, from + 1)
        }
    }
}

/// A `Grid` object, mostly used for input and output.
///
/// A `Grid` models a sudoku grid of `DIMENSION` by `DIMENSION`.
#[derive(Clone, Copy, Debug, PartialEq, Eq, Hash)]
pub struct Grid {
    solved: u8,
    cells: [Option<Digit>; 81],
}

impl View for Grid {
    type V = Seq<Option<Digit>>;

    /// A grid denotes the sequence of its 81 optional digits.
    closed spec fn view(&self) -> Seq<Option<Digit>> {
        self.cells@
    }
}

impl Default for Grid {
    /// Creates an empty grid.
    fn default() -> (r: Grid)
        ensures
            r.wf(),
            r@.len() == 81,
            forall|c: int| 0 <= c < 81 ==> r@[c] is None,
            r.number_solved_spec() == 0,
    {
        let result = Grid { solved: 0, cells: [None; 81] };
        proof {
            lemma_solved_count_none(result@, 81);
        }
        result
    }
}

impl Grid {
    /// The recorded number of known digits matches the cells.
    pub open spec fn wf(self) -> bool {
        &&& self@.len() == 81
        &&& self.number_solved_spec() == solved_count(self@, 81)
    }

    /// The recorded number of known digits.
    pub closed spec fn number_solved_spec(self) -> int {
        self.solved as int
    }

    /// Creates an empty grid.
    pub fn new() -> (r: Grid)
        ensures
            r.wf(),
            r@.len() == 81,
            forall|c: int| 0 <= c < 81 ==> r@[c] is None,
            r.number_solved_spec() == 0,
    {
        Grid::default()
    }

    /// Returns the number of known digits.
    pub fn number_solved(&self) -> (r: usize)
        ensures
            r == self.number_solved_spec(),
    {
        self.solved as usize
    }

    /// Returns the digit at the specified index, or none if the digit is not
    /// yet known.
    pub fn get_digit(&self, cell: CellIndex) -> (r: Option<Digit>)
        ensures
            r == self@[cell@],
    {
        proof {
            use_type_invariant(&cell);
        }
        self.cells[cell.value()]
    }

    /// Returns the index of a conflicting cell, if any.
    ///
    /// Conflicts are determined as per the rules of sudoku, that is another
    /// cell sharing a row, column, or square with the same digit. The three
    /// covering groups are scanned in order (column, row, square), each in
    /// stored cell order, and the first match is returned.
    pub fn get_conflicting(&self, cell: CellIndex, digit: Digit) -> (r: Option<CellIndex>)
        requires
            self.wf(),
        ensures
            match r {
                Some(conflicting) => first_conflict(self@, cell@, digit, 0) == Some(conflicting@),
                None => first_conflict(self@, cell@, digit, 0) is None,
            },
    {
        proof {
            use_type_invariant(&cell);
        }
        let groups = Group::groups(cell);
        let mut which: usize = 0;
        while which < 3
            invariant
                which <= 3,
                self.wf(),
                0 <= cell@ < 81,
                groups@[0]@ == covering_group(cell@, 0),
                groups@[1]@ == covering_group(cell@, 1),
                groups@[2]@ == covering_group(cell@, 2),
                first_conflict(self@, cell@, digit, 0) == first_conflict(
                    self@,
                    cell@,
                    digit,
                    which * 9,
                ),
            decreases 3 - which,
        {
            let group = groups[which];
            let candidates = group.cells();
            let mut position: usize = 0;
            while position < 9
                invariant
                    which < 3,
                    position <= 9,
                    self.wf(),
                    0 <= cell@ < 81,
                    group@ == covering_group(cell@, which as int),
                    forall|k: int| 0 <= k < 9 ==> #[trigger] candidates@[k]@ == group_cell(group@, k),
                    first_conflict(self@, cell@, digit, 0) == first_conflict(
                        self@,
                        cell@,
                        digit,
                        which * 9 + position,
                    ),
                decreases 9 - position,
            {
                let candidate = candidates[position];
                proof {
                    lemma_covering_group_in_range(cell@, which as int);
                    lemma_group_cell_in_group(group@, position as int);
                    assert((which * 9 + position) / 9 == which && (which * 9 + position) % 9
                        == position) by (nonlinear_arith)
                        requires
                            0 <= which < 3,
                            0 <= position < 9,
                    ;
                }
                if candidate.value() != cell.value() && digit_eq(self.get_digit(candidate), digit) {
                    proof {
                        use_type_invariant(&candidate);
                    }
                    return Some(candidate);
                }
                position = position + 1;
            }
            which = which + 1;
        }
        None
    }

    /// Sets the digit at the specified index.
    ///
    /// Returns the previously set digit, if any.
    pub fn set_digit(&mut self, cell: CellIndex, digit: Option<Digit>) -> (r: Option<Digit>)
        requires
            old(self).wf(),
        ensures
            final(self).wf(),
            final(self)@ == old(self)@.update(cell@, digit),
            r == old(self)@[cell@],
            final(self).number_solved_spec() == old(self).number_solved_spec() + (if digit
                is Some {
                1int
            } else {
                0
            }) - (if old(self)@[cell@] is Some {
                1int
            } else {
                0
            }),
    {
        proof {
            use_type_invariant(&cell);
        }
        let index = cell.value();
        let previous = self.cells[index];
        self.cells[index] = digit;
        proof {
            lemma_solved_count_update(old(self)@, self@, cell@, 81);
            if previous is Some {
                lemma_solved_count_member(old(self)@, cell@, 81);
            }
            lemma_solved_count_bounds(self@, 81);
        }
        if previous.is_some() && digit.is_none() {
            self.solved = self.solved - 1;
        } else if previous.is_none() && digit.is_some() {
            self.solved = self.solved + 1;
        }

        previous
    }
}


/// Whether the byte stands for a cell of the grid notation: a digit, or a
/// placeholder for an unknown cell.
pub open spec fn grid_byte_advances(b: u8) -> bool {
    b == 46 || 48 <= b <= 57
}

/// Whether the byte stands for a known digit of the grid notation.
pub open spec fn grid_byte_digit(b: u8) -> bool {
    49 <= b <= 57
}

/// The position of the first comma at or after `from`, or the length of the
/// input: a comma terminates the grid notation early.
pub open spec fn grid_scan_end(bytes: Seq<u8>, from: int) -> int
    decreases bytes.len() - from,
{
    if from < 0 || from >= bytes.len() {
        bytes.len() as int
    } else if bytes[from] == 44 {
        from
    } else {
        grid_scan_end(bytes, from + 1)
    }
}

/// The scan end lies between `from` and the length of the input.
pub proof fn lemma_grid_scan_end_bounds(bytes: Seq<u8>, from: int)
    requires
        0 <= from <= bytes.len(),
    ensures
        from <= grid_scan_end(bytes, from) <= bytes.len(),
    decreases bytes.len() - from,
{
    if from < bytes.len() && bytes[from] != 44 {
        lemma_grid_scan_end_bounds(bytes, from + 1);
    }
}

/// The number of cell positions consumed by the first `upto` bytes.
pub open spec fn cells_before(bytes: Seq<u8>, upto: int) -> int
    decreases upto,
{
    if upto <= 0 {
        0
    } else {
        cells_before(bytes, upto - 1) + if grid_byte_advances(bytes[upto - 1]) {
            1int
        } else {
            0
        }
    }
}

/// The digits assigned by the first `upto` bytes, keyed by cell index.
pub open spec fn parsed_digits(bytes: Seq<u8>, upto: int) -> Map<int, int>
    decreases upto,
{
    if upto <= 0 {
        Map::empty()
    } else {
        let prior = parsed_digits(bytes, upto - 1);
        let b = bytes[upto - 1];
        if grid_byte_digit(b) {
            prior.insert(cells_before(bytes, upto - 1), b - 48)
        } else {
            prior
        }
    }
}

/// Parses a grid from its textual notation: 81 cells left-to-right,
/// top-to-bottom, with zeros or dots for unknown digits; spaces are ignored,
/// and a comma terminates the grid early.
pub fn parse_grid(line: &[u8]) -> (r: Grid)
    requires
        forall|i: int|
            0 <= i < grid_scan_end(line@, 0) ==> grid_byte_advances(#[trigger] line@[i]) || line@[i]
                == 32,
        forall|i: int|
            0 <= i < grid_scan_end(line@, 0) && grid_byte_digit(#[trigger] line@[i])
                ==> cells_before(line@, i) < 81,
    ensures
        r.wf(),
        forall|c: int|
            0 <= c < 81 ==> {
                let parsed = parsed_digits(line@, grid_scan_end(line@, 0));
                &&& ((#[trigger] r@[c]) is Some <==> parsed.dom().contains(c))
                &&& (parsed.dom().contains(c) ==> r@[c].unwrap()@ == parsed[c])
            },
{
    let mut grid = Grid::new();

    let mut index: usize = 0;
    let mut i: usize = 0;
    while i < line.len() && line[i] != 44
        invariant
            i <= line@.len(),
            index <= i,
            grid.wf(),
            grid_scan_end(line@, 0) == grid_scan_end(line@, i as int),
            forall|j: int|
                0 <= j < grid_scan_end(line@, 0) ==> grid_byte_advances(#[trigger] line@[j])
                    || line@[j] == 32,
            forall|j: int|
                0 <= j < grid_scan_end(line@, 0) && grid_byte_digit(#[trigger] line@[j])
                    ==> cells_before(line@, j) < 81,
            index == cells_before(line@, i as int),
            forall|c: int|
                0 <= c < 81 ==> {
                    &&& ((#[trigger] grid@[c]) is Some <==> parsed_digits(line@, i as int).dom().contains(c))
                    &&& (parsed_digits(line@, i as int).dom().contains(c) ==> grid@[c].unwrap()@
                        == parsed_digits(line@, i as int)[c])
                },
        decreases line@.len() - i,
    {
        let b = line[i];
        proof {
            lemma_grid_scan_end_bounds(line@, i + 1);
            assert(grid_scan_end(line@, i as int) == grid_scan_end(line@, i + 1));
            assert(i < grid_scan_end(line@, 0));
        }
        if b == 48 || b == 46 {
            //  An unknown cell: b'0' or b'.'.
            index = index + 1;
        } else if 49 <= b && b <= 57 {
            //  A known digit: b'1'..=b'9'.
            let cell = CellIndex::new(index).unwrap();
            let digit = Digit::new((b - 48) as usize).unwrap();

            grid.set_digit(cell, Some(digit));

            index = index + 1;
        } else {
            //  Only spaces remain within a valid grid notation.
            proof {
                assert(b == 32);
            }
        }
        i = i + 1;
    }
    proof {
        if i < line@.len() {
            assert(grid_scan_end(line@, i as int) == i);
        }
        assert(grid_scan_end(line@, 0) == i);
    }

    grid
}

/// Whether the optional digit holds exactly the given digit.
fn digit_eq(candidate: Option<Digit>, digit: Digit) -> (r: bool)
    ensures
        r == (candidate == Some(digit)),
{
    match candidate {
        Some(found) => found == digit,
        None => false,
    }
}

/// A sequence of unknown digits has a zero count.
proof fn lemma_solved_count_none(cells: Seq<Option<Digit>>, bound: int)
    requires
        forall|c: int| 0 <= c < bound ==> cells[c] is None,
    ensures
        solved_count(cells, bound) == 0,
    decreases bound,
{
    if bound > 0 {
        lemma_solved_count_none(cells, bound - 1);
    }
}

/// Each covering group index lies within range.
pub proof fn lemma_covering_group_in_range(cell: int, which: int)
    requires
        0 <= cell < 81,
        0 <= which < 3,
    ensures
        0 <= covering_group(cell, which) < 27,
{
}

} // verus!
