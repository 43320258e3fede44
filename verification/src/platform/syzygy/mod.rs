//! The Syzygy endgame tablebases: finding the tables, reading their files, and probing them.
//!
//! A table says of a position whether it is won, drawn or lost, and how far the next move that
//! resets the clock is. It knows nothing of en passant, so captures are searched first.

pub mod codes;
pub mod discovery;
pub mod folds;
pub mod layouts;
pub mod leaders;
pub mod lists;
pub mod numbering;
pub mod pairs;
pub mod probe;
pub mod registry;
pub mod table;
pub mod tables;
pub mod turns;
pub mod verdicts;

pub use discovery::{cardinality_of, stems_for, wdl_stems, Tablebases};
pub use probe::{ProbeState, Wdl};
pub use registry::{dtz_before_zeroing, RankedRootMove, TableRegistry, MAX_DTZ};
