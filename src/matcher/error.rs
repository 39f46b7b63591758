//! Errors raised while building or using a matcher.
use globset::Error as GlobError;
use vstd::prelude::*;

verus! {

#[verifier::external_type_specification]
#[verifier::external_body]
pub struct ExGlobError(GlobError);

/// Matcher error.
#[derive(Debug)]
pub enum Error {
    /// An identifier could not be created.
    Id(crate::Error),
    /// A selector component is not a valid path component.
    Path(crate::path::Error),
    /// The formatted string of a selector is invalid.
    Format(crate::format::Error),
    /// The string does not start with the selector tag.
    Prefix,
    /// A selector component is not a valid glob pattern.
    Glob(GlobError),
}

/// Matcher result.
pub type Result<T = ()> = core::result::Result<T, Error>;

} // verus!
