use vstd::prelude::*;

verus! {

/// A half-open byte range `[start, end)` into the component source.
#[derive(Clone, Copy, Debug, PartialEq, Eq)]
pub struct Span {
    pub start: u32,
    pub end: u32,
}

impl Span {
    /// Builds the span `[start, end)`.
    pub fn new(start: u32, end: u32) -> (s: Span)
        ensures
            s.start == start,
            s.end == end,
    {
        Span { start, end }
    }

    /// Builds the span that starts at `start` and is `size` bytes long.
    pub fn sized(start: u32, size: u32) -> (s: Span)
        requires
            start + size <= u32::MAX,
        ensures
            s.start == start,
            s.end == start + size,
    {
        Span { start, end: start + size }
    }
}

} // verus!
