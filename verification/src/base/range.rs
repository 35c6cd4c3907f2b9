//! Ranges as parallel iterators, and the trait of iterators which can be cut
//! exactly at an index.
use vstd::prelude::*;
use core::ops::Range;
use crate::divisibility::in_range;

verus! {

/// An iterator which knows how many iterations it holds and can be cut
/// exactly at a given index.
pub trait DivisibleParallelIterator: Sized {
    /// How many iterations are held.
    spec fn iterations(&self) -> nat;

    /// `left` holds the first `index` iterations of `self` and `right` the others.
    spec fn cut_spec(self, index: usize, left: Self, right: Self) -> bool;

    /// How many iterations are held.
    fn base_length(&self) -> (r: usize)
        ensures
            r == self.iterations(),
    ;

    /// Cut at `index`: the left part is returned and `self` becomes the right part.
    fn cut_at_index(&mut self, index: usize) -> (r: Self)
        requires
            index <= old(self).iterations(),
        ensures
            old(self).cut_spec(index, r, *final(self)),
            r.iterations() == index,
            r.iterations() + final(self).iterations() == old(self).iterations(),
    ;
}


impl DivisibleParallelIterator for Range<usize> {
    open spec fn iterations(&self) -> nat {
        if self.start <= self.end { (self.end - self.start) as nat } else { 0 }
    }

    open spec fn cut_spec(self, index: usize, left: Self, right: Self) -> bool {
        &&& left.start == self.start
        &&& left.end == self.start + index
        &&& right.start == self.start + index
        &&& right.end == self.end
    }

    fn base_length(&self) -> (r: usize) {
        if self.start <= self.end { self.end - self.start } else { 0 }
    }

    fn cut_at_index(&mut self, index: usize) -> (r: Self) {
        let left = self.start..self.start + index;
        self.start = left.end;
        left
    }
}

impl DivisibleParallelIterator for Range<u32> {
    open spec fn iterations(&self) -> nat {
        if self.start <= self.end { (self.end - self.start) as nat } else { 0 }
    }

    open spec fn cut_spec(self, index: usize, left: Self, right: Self) -> bool {
        &&& left.start == self.start
        &&& left.end == self.start + index
        &&& right.start == self.start + index
        &&& right.end == self.end
    }

    fn base_length(&self) -> (r: usize) {
        if self.start <= self.end { (self.end - self.start) as usize } else { 0 }
    }

    fn cut_at_index(&mut self, index: usize) -> (r: Self) {
        let left = self.start..self.start + index as u32;
        self.start = left.end;
        left
    }
}

impl DivisibleParallelIterator for Range<u16> {
    open spec fn iterations(&self) -> nat {
        if self.start <= self.end { (self.end - self.start) as nat } else { 0 }
    }

    open spec fn cut_spec(self, index: usize, left: Self, right: Self) -> bool {
        &&& left.start == self.start
        &&& left.end == self.start + index
        &&& right.start == self.start + index
        &&& right.end == self.end
    }

    fn base_length(&self) -> (r: usize) {
        if self.start <= self.end { (self.end - self.start) as usize } else { 0 }
    }

    fn cut_at_index(&mut self, index: usize) -> (r: Self) {
        let left = self.start..self.start + index as u16;
        self.start = left.end;
        left
    }
}

impl DivisibleParallelIterator for Range<u8> {
    open spec fn iterations(&self) -> nat {
        if self.start <= self.end { (self.end - self.start) as nat } else { 0 }
    }

    open spec fn cut_spec(self, index: usize, left: Self, right: Self) -> bool {
        &&& left.start == self.start
        &&& left.end == self.start + index
        &&& right.start == self.start + index
        &&& right.end == self.end
    }

    fn base_length(&self) -> (r: usize) {
        if self.start <= self.end { (self.end - self.start) as usize } else { 0 }
    }

    fn cut_at_index(&mut self, index: usize) -> (r: Self) {
        let left = self.start..self.start + index as u8;
        self.start = left.end;
        left
    }
}


/// Cutting a range of `usize` at `index` hands out its first `index` numbers and
/// keeps the others: every number of the range is in exactly one part, each
/// number handed out comes before each number kept, and `index` numbers are
/// handed out.
pub proof fn lemma_range_usize_cut(whole: Range<usize>, index: usize, left: Range<usize>, right: Range<usize>)
    requires
        whole.start <= whole.end,
        index <= whole.iterations(),
        whole.cut_spec(index, left, right),
    ensures
        forall|x: int|
            #[trigger] in_range(whole.start as int, whole.end as int, x) <==> (in_range(
                left.start as int,
                left.end as int,
                x,
            ) || in_range(right.start as int, right.end as int, x)),
        forall|x: int, y: int|
            #[trigger] in_range(left.start as int, left.end as int, x) && #[trigger] in_range(
                right.start as int,
                right.end as int,
                y,
            ) ==> x < y,
        left.end - left.start == index,
        left.iterations() + right.iterations() == whole.iterations(),
{
}

/// Cutting a range of `u32` at `index` hands out its first `index` numbers and
/// keeps the others: every number of the range is in exactly one part, each
/// number handed out comes before each number kept, and `index` numbers are
/// handed out.
pub proof fn lemma_range_u32_cut(whole: Range<u32>, index: usize, left: Range<u32>, right: Range<u32>)
    requires
        whole.start <= whole.end,
        index <= whole.iterations(),
        whole.cut_spec(index, left, right),
    ensures
        forall|x: int|
            #[trigger] in_range(whole.start as int, whole.end as int, x) <==> (in_range(
                left.start as int,
                left.end as int,
                x,
            ) || in_range(right.start as int, right.end as int, x)),
        forall|x: int, y: int|
            #[trigger] in_range(left.start as int, left.end as int, x) && #[trigger] in_range(
                right.start as int,
                right.end as int,
                y,
            ) ==> x < y,
        left.end - left.start == index,
        left.iterations() + right.iterations() == whole.iterations(),
{
}

/// Cutting a range of `u16` at `index` hands out its first `index` numbers and
/// keeps the others: every number of the range is in exactly one part, each
/// number handed out comes before each number kept, and `index` numbers are
/// handed out.
pub proof fn lemma_range_u16_cut(whole: Range<u16>, index: usize, left: Range<u16>, right: Range<u16>)
    requires
        whole.start <= whole.end,
        index <= whole.iterations(),
        whole.cut_spec(index, left, right),
    ensures
        forall|x: int|
            #[trigger] in_range(whole.start as int, whole.end as int, x) <==> (in_range(
                left.start as int,
                left.end as int,
                x,
            ) || in_range(right.start as int, right.end as int, x)),
        forall|x: int, y: int|
            #[trigger] in_range(left.start as int, left.end as int, x) && #[trigger] in_range(
                right.start as int,
                right.end as int,
                y,
            ) ==> x < y,
        left.end - left.start == index,
        left.iterations() + right.iterations() == whole.iterations(),
{
}

/// Cutting a range of `u8` at `index` hands out its first `index` numbers and
/// keeps the others: every number of the range is in exactly one part, each
/// number handed out comes before each number kept, and `index` numbers are
/// handed out.
pub proof fn lemma_range_u8_cut(whole: Range<u8>, index: usize, left: Range<u8>, right: Range<u8>)
    requires
        whole.start <= whole.end,
        index <= whole.iterations(),
        whole.cut_spec(index, left, right),
    ensures
        forall|x: int|
            #[trigger] in_range(whole.start as int, whole.end as int, x) <==> (in_range(
                left.start as int,
                left.end as int,
                x,
            ) || in_range(right.start as int, right.end as int, x)),
        forall|x: int, y: int|
            #[trigger] in_range(left.start as int, left.end as int, x) && #[trigger] in_range(
                right.start as int,
                right.end as int,
                y,
            ) ==> x < y,
        left.end - left.start == index,
        left.iterations() + right.iterations() == whole.iterations(),
{
}

} // verus!
