//! Infinite ranges as parallel iterators.
use vstd::prelude::*;
use core::ops::Range;

verus! {

/// The infinite range of integers from `start` on.
pub struct RangeFrom<Idx> {
    start: Idx,
}

impl<Idx: Copy> RangeFrom<Idx> {
    /// The first integer not yet handed out.
    pub closed spec fn first(&self) -> Idx {
        self.start
    }

    /// The integers from `start` on.
    pub fn new(start: Idx) -> (r: Self)
        ensures
            r.first() == start,
    {
        RangeFrom { start }
    }

    /// Borrowing `size` iterations gives exactly `size` iterations.
    pub fn bound_iterations_number(&self, size: usize) -> (r: usize)
        ensures
            r == size,
    {
        size
    }
}

impl RangeFrom<usize> {
    /// Hand out the next `size` integers as a range.
    pub fn par_borrow(&mut self, size: usize) -> (r: Range<usize>)
        requires
            old(self).first() + size <= usize::MAX,
        ensures
            r.start == old(self).first(),
            r.end == old(self).first() + size,
            final(self).first() == r.end,
    {
        let end = self.start + size;
        let borrowed = self.start..end;
        self.start = end;
        borrowed
    }
}

impl RangeFrom<u64> {
    /// Hand out the next `size` integers as a range.
    pub fn par_borrow(&mut self, size: usize) -> (r: Range<u64>)
        requires
            old(self).first() + size <= u64::MAX,
        ensures
            r.start == old(self).first(),
            r.end == old(self).first() + size,
            final(self).first() == r.end,
    {
        let end = self.start + size as u64;
        let borrowed = self.start..end;
        self.start = end;
        borrowed
    }
}

impl RangeFrom<u32> {
    /// Hand out the next `size` integers as a range.
    pub fn par_borrow(&mut self, size: usize) -> (r: Range<u32>)
        requires
            old(self).first() + size <= u32::MAX,
        ensures
            r.start == old(self).first(),
            r.end == old(self).first() + size,
            final(self).first() == r.end,
    {
        let end = self.start + size as u32;
        let borrowed = self.start..end;
        self.start = end;
        borrowed
    }
}

} // verus!
