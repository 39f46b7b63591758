//! Validation of component values, and the errors of path projection.
use vstd::prelude::*;
use vstd::string::StringSliceAdditionalSpecFns;

verus! {

/// The backslash byte, which no component value may hold.
pub const BACKSLASH: u8 = 0x5C;

/// Whether a byte sequence holds a backslash.
pub open spec fn has_backslash(b: Seq<u8>) -> bool {
    b.contains(BACKSLASH)
}

/// Path error.
#[derive(Debug, Clone, Copy, PartialEq, Eq, Structural)]
pub enum Error {
    /// A component value holds a backslash.
    Backslash,
    /// A path holds a parent directory segment.
    ParentDir,
    /// A path is absolute or rooted.
    RootDir,
}

/// Path result.
pub type Result<T = ()> = core::result::Result<T, Error>;

/// Returns the value if it holds no backslash, or [`Error::Backslash`].
pub fn validate(value: &str) -> (r: Result<&str>)
    ensures
        has_backslash(value.spec_bytes()) ==> r == Err::<&str, Error>(Error::Backslash),
        !has_backslash(value.spec_bytes()) ==> r == Ok::<&str, Error>(value),
{
    let bytes = value.as_bytes();
    let mut i: usize = 0;
    while i < bytes.len()
        invariant
            bytes@ == value.spec_bytes(),
            i <= bytes@.len(),
            forall|k: int| 0 <= k < i ==> bytes@[k] != BACKSLASH,
        decreases bytes.len() - i,
    {
        if bytes[i] == BACKSLASH {
            assert(bytes@[i as int] == BACKSLASH);
            return Err(Error::Backslash);
        }
        i += 1;
    }
    Ok(value)
}

} // verus!
