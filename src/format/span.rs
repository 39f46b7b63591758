//! Half-open byte ranges with 16-bit bounds.
use std::ops::Range;

use vstd::prelude::*;

use super::error::{Error, Result};

verus! {

/// A half-open byte range `[start, end)` into a formatted string.
#[derive(Clone, Copy, Debug)]
pub struct Span {
    start: u16,
    end: u16,
}

impl Span {
    /// Lower bound of the span.
    pub closed spec fn lo(self) -> int {
        self.start as int
    }

    /// Upper bound of the span (exclusive).
    pub closed spec fn hi(self) -> int {
        self.end as int
    }

    /// Both bounds fit in 16 bits.
    pub proof fn lemma_range(self)
        ensures
            0 <= self.lo() <= u16::MAX,
            0 <= self.hi() <= u16::MAX,
    {
    }

    /// Whether the bounds are ordered.
    pub open spec fn wf(self) -> bool {
        self.lo() <= self.hi()
    }

    /// Creates a span.
    pub fn new(start: u16, end: u16) -> (r: Self)
        requires
            start <= end,
        ensures
            r.lo() == start as int,
            r.hi() == end as int,
    {
        Self { start, end }
    }

    /// Shifts both bounds of the span by the given signed amount.
    ///
    /// Fails with [`Error::Length`] and leaves the span as it was, if either
    /// bound would leave the range of `u16`.
    pub fn shift(&mut self, by: i16) -> (r: Result)
        requires
            old(self).wf(),
        ensures
            r is Ok <==> 0 <= old(self).lo() + by && old(self).hi() + by <= u16::MAX,
            r is Ok ==> final(self).lo() == old(self).lo() + by
                && final(self).hi() == old(self).hi() + by,
            r is Err ==> *final(self) == *old(self) && r == Err::<(), Error>(Error::Length),
            final(self).wf(),
    {
        if by >= 0 {
            match self.shift_end(by) {
                Ok(()) => self.shift_start(by),
                Err(e) => Err(e),
            }
        } else {
            match self.shift_start(by) {
                Ok(()) => self.shift_end(by),
                Err(e) => Err(e),
            }
        }
    }

    /// Shifts the lower bound of the span by the given signed amount.
    ///
    /// Fails with [`Error::Length`] and leaves the span as it was, if the
    /// bound would leave the range of `u16`.
    pub fn shift_start(&mut self, by: i16) -> (r: Result)
        requires
            old(self).wf(),
            0 <= old(self).lo() + by <= u16::MAX ==> old(self).lo() + by <= old(self).hi(),
        ensures
            r is Ok <==> 0 <= old(self).lo() + by <= u16::MAX,
            r is Ok ==> final(self).lo() == old(self).lo() + by && final(self).hi() == old(self).hi(),
            r is Err ==> *final(self) == *old(self) && r == Err::<(), Error>(Error::Length),
            final(self).wf(),
    {
        let value = self.start as i32 + by as i32;
        if value < 0 || value > u16::MAX as i32 {
            Err(Error::Length)
        } else {
            self.start = value as u16;
            Ok(())
        }
    }

    /// Shifts the upper bound of the span by the given signed amount.
    ///
    /// Fails with [`Error::Length`] and leaves the span as it was, if the
    /// bound would leave the range of `u16`.
    pub fn shift_end(&mut self, by: i16) -> (r: Result)
        requires
            old(self).wf(),
            0 <= old(self).hi() + by <= u16::MAX ==> old(self).lo() <= old(self).hi() + by,
        ensures
            r is Ok <==> 0 <= old(self).hi() + by <= u16::MAX,
            r is Ok ==> final(self).hi() == old(self).hi() + by && final(self).lo() == old(self).lo(),
            r is Err ==> *final(self) == *old(self) && r == Err::<(), Error>(Error::Length),
            final(self).wf(),
    {
        let value = self.end as i32 + by as i32;
        if value < 0 || value > u16::MAX as i32 {
            Err(Error::Length)
        } else {
            self.end = value as u16;
            Ok(())
        }
    }

    /// Returns the lower bound.
    pub fn start(&self) -> (r: u16)
        ensures
            r as int == self.lo(),
    {
        self.start
    }

    /// Returns the upper bound (exclusive).
    pub fn end(&self) -> (r: u16)
        ensures
            r as int == self.hi(),
    {
        self.end
    }

    /// Returns the length of the span.
    pub fn len(&self) -> (r: u16)
        requires
            self.wf(),
        ensures
            r as int == self.hi() - self.lo(),
    {
        self.end - self.start
    }

    /// Returns whether the span is empty.
    pub fn is_empty(&self) -> (r: bool)
        requires
            self.wf(),
        ensures
            r == (self.hi() == self.lo()),
    {
        self.len() == 0
    }
}

impl From<Span> for Range<usize> {
    fn from(span: Span) -> (r: Range<usize>) {
        Range { start: span.start as usize, end: span.end as usize }
    }
}

impl vstd::std_specs::convert::FromSpecImpl<Span> for Range<usize> {
    open spec fn obeys_from_spec() -> bool {
        true
    }

    open spec fn from_spec(span: Span) -> Range<usize> {
        Range { start: span.lo() as usize, end: span.hi() as usize }
    }
}

/// Creates `N` empty spans at consecutive offsets, one delimiter apart.
pub fn init<const N: usize>() -> (r: [Span; N])
    requires
        N <= 65536,
    ensures
        forall|i: int| 0 <= i < N ==> #[trigger] r@[i].lo() == i && r@[i].hi() == i,
{
    let mut spans: [Span; N] = vstd::array::array_fill_for_copy_types(Span::new(0, 0));
    let mut index: usize = 0;
    while index < N
        invariant
            index <= N,
            N <= 65536,
            forall|i: int| 0 <= i < index ==> #[trigger] spans@[i].lo() == i && spans@[i].hi() == i,
        decreases N - index,
    {
        let at = index as u16;
        spans[index] = Span::new(at, at);
        index += 1;
    }
    spans
}

} // verus!
