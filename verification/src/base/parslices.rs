//! Parallel iterator on the subslices of a slice.
use vstd::prelude::*;
use crate::base::range::DivisibleParallelIterator;

verus! {

/// A slice, cut into subslices.
pub struct ParallelSlice<'a, T> {
    slice: &'a [T],
}

impl<'a, T> ParallelSlice<'a, T> {
    /// The elements not yet handed out.
    pub closed spec fn view(&self) -> Seq<T> {
        self.slice@
    }

    /// Iterate on subslices of `slice`.
    pub fn new(slice: &'a [T]) -> (r: Self)
        ensures
            r@ == slice@,
    {
        ParallelSlice { slice }
    }

    /// The sequential iterator on subslices.
    pub fn into_iter(self) -> (r: IntoIter<'a, T>)
        ensures
            r@ == self@,
    {
        IntoIter { par_slice: self }
    }
}

impl<'a, T> DivisibleParallelIterator for ParallelSlice<'a, T> {
    open spec fn iterations(&self) -> nat {
        self@.len()
    }

    open spec fn cut_spec(self, index: usize, left: Self, right: Self) -> bool {
        &&& left@ == self@.subrange(0, index as int)
        &&& right@ == self@.subrange(index as int, self@.len() as int)
    }

    fn base_length(&self) -> (r: usize) {
        self.slice.len()
    }

    /// Cuts self: the left side is returned and self is now the right side of the cut.
    fn cut_at_index(&mut self, index: usize) -> (r: Self) {
        let whole: &'a [T] = self.slice;
        let left = vstd::slice::slice_subrange(whole, 0, index);
        self.slice = vstd::slice::slice_subrange(whole, index, whole.len());
        ParallelSlice { slice: left }
    }
}

/// Sequential iterator on the subslices of a `ParallelSlice`.
pub struct IntoIter<'a, T> {
    par_slice: ParallelSlice<'a, T>,
}

impl<'a, T> IntoIter<'a, T> {
    /// The elements not yet handed out.
    pub closed spec fn view(&self) -> Seq<T> {
        self.par_slice@
    }

    /// Nothing once the slice is empty; otherwise the subslice of its first
    /// element, the rest of the slice remaining.
    pub fn next(&mut self) -> (r: Option<&'a [T]>)
        ensures
            old(self)@.len() == 0 ==> r is None && final(self)@ == old(self)@,
            old(self)@.len() > 0 ==> {
                &&& r matches Some(s)
                &&& s@ == old(self)@.subrange(0, 1)
                &&& final(self)@ == old(self)@.subrange(1, old(self)@.len() as int)
            },
    {
        if self.par_slice.base_length() == 0 {
            None
        } else {
            let whole: &'a [T] = self.par_slice.slice;
            let left = vstd::slice::slice_subrange(whole, 0, 1);
            let right = vstd::slice::slice_subrange(whole, 1, whole.len());
            self.par_slice.slice = right;
            Some(left)
        }
    }
}

/// Cutting a parallel slice at `index` hands out its first `index` elements
/// and keeps the others, in order.
pub proof fn lemma_parallel_slice_cut<'a, T>(
    whole: ParallelSlice<'a, T>,
    index: usize,
    left: ParallelSlice<'a, T>,
    right: ParallelSlice<'a, T>,
)
    requires
        index <= whole@.len(),
        whole.cut_spec(index, left, right),
    ensures
        left@ + right@ == whole@,
        left@.len() == index,
{
    assert(left@ + right@ =~= whole@);
}

} // verus!
