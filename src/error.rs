//! The errors of the container format.
use vstd::prelude::*;

verus! {

/// Why an operation on a container file failed.
#[derive(Debug, Clone, Copy, PartialEq, Eq, Structural)]
pub enum PlankError {
    /// A footer or trailer tag did not match, or a field is structurally invalid.
    CorruptFooter,
    /// The footer parsed, but its stored digest differs from the recomputed one.
    ChecksumMismatch,
    /// A read returned fewer bytes than the span it declares.
    TruncatedFile,
    /// A row group's bytes do not decode into well-formed columns.
    CorruptRowGroup,
    /// A row's field count differs from the schema's column count.
    SchemaMismatch,
    /// The writer has already been finished.
    WriterClosed,
    /// A count or byte offset would not fit in 32 bits.
    TooLarge,
}

} // verus!
