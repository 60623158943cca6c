use vstd::prelude::*;

verus! {

/// A read-only view into the input buffer: `len` bytes starting at `start`.
#[derive(Clone, Copy, Debug, PartialEq, Eq, Structural)]
pub struct Span {
    pub start: usize,
    pub len: usize,
}

impl Span {
    /// The view lies within a buffer of `n` bytes.
    pub open spec fn within(self, n: nat) -> bool {
        self.start + self.len <= n
    }

    pub open spec fn end(self) -> int {
        self.start + self.len
    }

    /// Builds the view of bytes `start .. end`.
    pub fn range(start: usize, end: usize) -> (r: Span)
        requires
            start <= end,
        ensures
            r.start == start,
            r.end() == end,
    {
        Span { start, len: end - start }
    }
}

} // verus!
