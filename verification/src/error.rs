//! Error types for time values and guard intervals.

use vstd::prelude::*;

verus! {

/// Errors related to interval construction or validation.
#[derive(Debug, Clone, PartialEq, Eq)]
#[non_exhaustive]
pub enum IntervalError {
    /// The interval string does not match the accepted textual syntax.
    InvalidSyntax(String),
    /// The lower bound exceeds the upper bound.
    LowerExceedsUpper {
        /// Invalid lower endpoint.
        lower: u32,
        /// Invalid upper endpoint.
        upper: u32,
    },
    /// The interval denotes an empty set.
    Empty,
    /// A `+∞` upper bound must be open.
    InclusiveInfiniteUpper,
}

} // verus!
