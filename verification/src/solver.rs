//! The Solver and its various hanger-ons.

pub mod analysis;
pub mod analyzer;
pub mod journal;
pub mod placement;
pub mod placer;
pub mod possible_values;
pub mod refinement;
pub mod solver;

pub use analysis::Analysis;
pub use analysis::NUMBER_ANALYSIS;
pub use analyzer::Analyzer;
pub use journal::JournalCursor;
pub use journal::JournalMultiCursor;
pub use journal::JournalReader;
pub use journal::JournalWriter;
pub use placement::Placement;
pub use placer::Placer;
pub use possible_values::PossibleValues;
pub use refinement::Refinement;
pub use refinement::RefinementReason;
pub use solver::ConflictError;
pub use solver::ProgressStalled;
pub use solver::Solver;
