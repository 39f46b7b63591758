//! Errors raised while creating or updating identifiers.
use vstd::prelude::*;


verus! {

/// Identifier error.
#[derive(Debug, Clone, Copy, PartialEq, Eq)]
pub enum Error {
    /// A component value is not a valid path component.
    Path(crate::path::Error),
    /// The formatted string is invalid.
    Format(crate::format::Error),
    /// The string does not start with the identifier tag.
    Prefix,
    /// A required component is empty.
    Component(&'static str),
}

/// Identifier result.
pub type Result<T = ()> = core::result::Result<T, Error>;

} // verus!
