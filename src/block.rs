use vstd::prelude::*;

verus! {

/// A contiguous run of `length` units starting at unit `start`: it covers
/// `[start, start + length)`.
#[derive(Clone, Copy, Debug, PartialEq, Eq, Structural)]
pub struct BlockDescriptor {
    pub start: usize,
    pub length: usize,
}

impl BlockDescriptor {
    /// One past the last unit of the run.
    pub open spec fn end(self) -> int {
        self.start + self.length
    }

    /// A descriptor is valid when it is non-empty and its end is addressable.
    pub open spec fn wf(self) -> bool {
        self.length > 0 && self.end() <= usize::MAX
    }

    /// Whether `self` and `other` share at least one unit.
    pub open spec fn overlaps(self, other: BlockDescriptor) -> bool {
        self.start < other.end() && other.start < self.end()
    }

    /// Whether `other` begins exactly where `self` ends.
    pub open spec fn adjacent_to(self, other: BlockDescriptor) -> bool {
        self.end() == other.start
    }

    pub fn new(start: usize, length: usize) -> (r: Self)
        ensures
            r.start == start,
            r.length == length,
    {
        BlockDescriptor { start, length }
    }

    /// Whether a request of `n` units fits into this run.
    pub fn can_accommodate(&self, n: usize) -> (r: bool)
        ensures
            r == (self.length >= n),
    {
        self.length >= n
    }

    /// Whether a request of `n` units uses up this run exactly.
    pub fn is_exact(&self, n: usize) -> (r: bool)
        ensures
            r == (self.length == n),
    {
        self.length == n
    }

    /// Carves `n` units off the right end of this run and returns them; the
    /// start of `self` does not move.
    pub fn take_partially(&mut self, n: usize) -> (r: BlockDescriptor)
        requires
            old(self).wf(),
            0 < n < old(self).length,
        ensures
            r.start == old(self).end() - n,
            r.length == n,
            final(self).start == old(self).start,
            final(self).length == old(self).length - n,
            final(self).end() == r.start,
            final(self).wf(),
            r.wf(),
    {
        self.length = self.length - n;
        BlockDescriptor { start: self.start + self.length, length: n }
    }

    /// Whether `other` begins exactly where `self` ends.
    pub fn can_join_right(&self, other: &BlockDescriptor) -> (r: bool)
        requires
            self.wf(),
        ensures
            r == self.adjacent_to(*other),
    {
        self.start + self.length == other.start
    }

    /// Absorbs the run `other`, which begins where `self` ends.
    pub fn join_right(&mut self, other: BlockDescriptor)
        requires
            old(self).wf(),
            other.wf(),
            old(self).adjacent_to(other),
        ensures
            final(self).start == old(self).start,
            final(self).length == old(self).length + other.length,
            final(self).end() == other.end(),
            final(self).wf(),
    {
        self.length = self.length + other.length;
    }
}

} // verus!
