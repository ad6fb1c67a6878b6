//! Sets of integers held as sorted, disjoint ranges ("run lists"), keyed by
//! chromosome and optionally by group, with their set algebra, span
//! reshaping, coverage depth and run-list text form.
pub mod commands;
pub mod coverage;
pub mod error;
pub mod intspan;
pub mod keymap;
pub mod laws;
pub mod ops;
pub mod runlist;
pub mod setmap;
pub mod table;

pub use error::SpanError;
pub use intspan::IntSpan;
pub use keymap::KeyMap;
