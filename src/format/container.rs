//! Byte buffers that back a formatted string.
use std::ops::Range;

use vstd::prelude::*;

verus! {

/// A growable byte buffer whose ranges can be replaced in place.
pub trait Container: Sized {
    /// The bytes held.
    spec fn bytes(&self) -> Seq<u8>;

    /// Creates a buffer holding a copy of the given bytes.
    fn from_slice(value: &[u8]) -> (r: Self)
        ensures
            r.bytes() == value@,
    ;

    /// Returns the bytes held.
    fn as_slice(&self) -> (r: &[u8])
        ensures
            r@ == self.bytes(),
    ;

    /// Replaces the bytes in the given range with the given value.
    fn splice(&mut self, range: Range<usize>, value: &[u8])
        requires
            range.start <= range.end <= old(self).bytes().len(),
        ensures
            final(self).bytes() == old(self).bytes().subrange(0, range.start as int) + value@
                + old(self).bytes().subrange(range.end as int, old(self).bytes().len() as int),
    ;
}

/// The buffer that formatted strings use by default.
pub type Recommended = Vec<u8>;

impl Container for Vec<u8> {
    open spec fn bytes(&self) -> Seq<u8> {
        self@
    }

    fn from_slice(value: &[u8]) -> (r: Self) {
        let mut out: Vec<u8> = Vec::with_capacity(value.len());
        let mut i: usize = 0;
        while i < value.len()
            invariant
                i <= value@.len(),
                out@ == value@.subrange(0, i as int),
            decreases value.len() - i,
        {
            out.push(value[i]);
            i += 1;
        }
        assert(out@ =~= value@);
        out
    }

    fn as_slice(&self) -> (r: &[u8]) {
        self.as_slice()
    }

    fn splice(&mut self, range: Range<usize>, value: &[u8]) {
        let len = self.len();
        let mut out: Vec<u8> = Vec::new();
        let mut i: usize = 0;
        while i < range.start
            invariant
                i <= range.start <= range.end <= len == self@.len(),
                out@ == self@.subrange(0, i as int),
            decreases range.start - i,
        {
            out.push(self[i]);
            i += 1;
        }
        let mut j: usize = 0;
        while j < value.len()
            invariant
                j <= value@.len(),
                range.start <= range.end <= len == self@.len(),
                out@ == self@.subrange(0, range.start as int) + value@.subrange(0, j as int),
            decreases value.len() - j,
        {
            out.push(value[j]);
            j += 1;
        }
        let mut k: usize = range.end;
        while k < len
            invariant
                range.start <= range.end <= k <= len == self@.len(),
                out@ == self@.subrange(0, range.start as int) + value@ + self@.subrange(
                    range.end as int,
                    k as int,
                ),
            decreases len - k,
        {
            out.push(self[k]);
            k += 1;
        }
        *self = out;
    }
}

} // verus!
