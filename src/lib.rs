//! Structured textual identifiers with named components, and a matcher that
//! tests many glob selectors against an identifier in one pass.
mod error;
pub mod format;
mod id;
pub mod matcher;
pub mod path;

pub use error::{Error, Result};
pub use id::{Id, ToId};
