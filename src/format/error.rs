//! Errors raised while parsing or updating a formatted string.
use vstd::prelude::*;

verus! {

/// Format error.
#[derive(Debug, Clone, Copy, PartialEq, Eq, Structural)]
pub enum Error {
    /// The string does not hold the expected number of spans.
    Cardinality,
    /// A span bound or length does not fit in 16 bits.
    Length,
}

/// Format result.
pub type Result<T = ()> = core::result::Result<T, Error>;

} // verus!
