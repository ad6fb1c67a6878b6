//! The errors of the library.
use vstd::prelude::*;

verus! {

/// What went wrong.
#[derive(Debug, Clone, Copy, PartialEq, Eq, Structural)]
pub enum SpanError {
    /// A file is missing or cannot be read or written.
    IoError,
    /// A run-list token, size-table line or range record is malformed.
    ParseError,
    /// An operator name is not one of its family.
    InvalidOperator,
    /// A document mixes run-list values and nested maps at one level.
    SchemaError,
    /// A result would leave the range of `i32`.
    OutOfRange,
}

} // verus!
