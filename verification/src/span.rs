//! The [`Span`] type and [`MAX_INPUT_LEN`] constant.
use vstd::prelude::*;

verus! {

/// The maximum byte length of a source slice accepted by the scanners.
///
/// Spans are stored as `u32` offsets, so this is `u32::MAX`: every scanner
/// requires its source to be at most this long, which keeps every span
/// endpoint exact.
pub const MAX_INPUT_LEN: usize = 4294967295;

/// A half-open byte range `[start, end)` into a source slice.
///
/// Both endpoints are byte offsets, not character indices. Every span a
/// scanner yields satisfies `start <= end <= source.len()`.
#[derive(Debug, Clone, Copy, PartialEq, Eq, Structural)]
pub struct Span {
    /// Byte offset of the first byte included in the span.
    pub start: u32,
    /// Byte offset one past the last byte included in the span.
    pub end: u32,
}

impl Span {
    /// Construct a span from explicit `start` and `end` byte offsets.
    pub fn new(start: u32, end: u32) -> (s: Self)
        ensures
            s.start == start,
            s.end == end,
    {
        Span { start, end }
    }

    /// The span `[start, end)` given as mathematical integers.
    pub open spec fn mk(start: int, end: int) -> Span {
        Span { start: start as u32, end: end as u32 }
    }

    /// `start <= end <= len`.
    pub open spec fn within(self, len: int) -> bool {
        self.start <= self.end && self.end <= len
    }
}

} // verus!
