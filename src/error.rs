use vstd::prelude::*;

verus! {

/// Why a run stops: every record must be accounted for, so none is skipped.
#[derive(Debug, Clone, Copy, PartialEq, Eq, Structural)]
pub enum AggregateError {
    /// No line break follows the naive start of a partition.
    NoLineBreak,
    /// A record without the `;` between key and value.
    MissingDelimiter,
    /// A value that is not `["-"] digit [digit] "." digit`.
    InvalidValue,
}

} // verus!
