use vstd::prelude::*;

verus! {

/// Enables iteration of a range of indices, in increasing order from the front and in
/// decreasing order from the back.
pub struct RangeIter {
    /// The next index yielded from the front.
    pub start: usize,
    /// One past the next index yielded from the back.
    pub end: usize,
}

impl RangeIter {
    /// Iterate the indices `start .. end`.
    pub fn from(start: usize, end: usize) -> (r: RangeIter)
        ensures
            r.start == start,
            r.end == end,
    {
        RangeIter { start, end }
    }

    /// Yields in increasing order.
    pub fn next(&mut self) -> (r: Option<usize>)
        ensures
            old(self).start < old(self).end ==> r == Some(old(self).start) && final(self).start
                == old(self).start + 1 && final(self).end == old(self).end,
            old(self).start >= old(self).end ==> r is None && *final(self) == *old(self),
    {
        if self.start < self.end {
            let next = self.start;
            self.start = self.start + 1;
            Some(next)
        } else {
            None
        }
    }

    /// Yields in decreasing order.
    pub fn next_back(&mut self) -> (r: Option<usize>)
        ensures
            old(self).start < old(self).end ==> r == Some((old(self).end - 1) as usize)
                && final(self).end == old(self).end - 1 && final(self).start == old(self).start,
            old(self).start >= old(self).end ==> r is None && *final(self) == *old(self),
    {
        if self.start < self.end {
            self.end = self.end - 1;
            Some(self.end)
        } else {
            None
        }
    }

    /// Returns `true` if the range yields nothing more.
    pub fn is_empty(&self) -> (r: bool)
        ensures
            r == (self.start >= self.end),
    {
        self.start >= self.end
    }
}

} // verus!
