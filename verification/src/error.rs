//! The error kinds that the two entry points report.

use vstd::prelude::*;

verus! {

/// A failure of an encoding or matrix-building call.
///
/// `IoError` is reserved for callers that wrap these operations around file
/// reading and writing; the in-memory operations here never produce it.
/// `ShapeError` guards the assembly of the design matrix against a flattened
/// data length that disagrees with the row and column counts; the contracts
/// show it is never reached.
#[derive(Clone, Copy, Debug, PartialEq, Eq, Structural)]
pub enum DataError {
    /// A file could not be opened, read, or written.
    IoError,
    /// The input is empty: no header line is available.
    FormatError,
    /// No requested target column resolves against the header.
    ConfigError,
    /// The flattened matrix data does not match rows times columns.
    ShapeError,
}

} // verus!
