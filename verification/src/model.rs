//! The various models exposed by the solver.

pub mod cell_set;
pub mod digit;
pub mod digit_counter;
pub mod digit_set;
pub mod dimension;
pub mod grid;
pub mod group;
pub mod group_set;
pub mod index;
pub mod render;

pub use cell_set::CellSet;
pub use digit::Digit;
pub use digit_counter::DigitCounter;
pub use digit_set::DigitSet;
pub use grid::parse_grid;
pub use grid::Grid;
pub use group::Group;
pub use group_set::GroupSet;
pub use dimension::DIMENSION;
pub use dimension::SQUARE_DIMENSION;
pub use index::CellIndex;
pub use index::ColumnIndex;
pub use index::GroupIndex;
pub use index::RowIndex;
pub use index::SquareIndex;
