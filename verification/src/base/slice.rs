//! Slices as parallel iterators.
use vstd::prelude::*;
use crate::base::range::DivisibleParallelIterator;

verus! {

/// Ordinary slices can be cut at any index.
impl<'a, T: 'a> DivisibleParallelIterator for &'a [T] {
    open spec fn iterations(&self) -> nat {
        self@.len()
    }

    open spec fn cut_spec(self, index: usize, left: Self, right: Self) -> bool {
        &&& left@ == self@.subrange(0, index as int)
        &&& right@ == self@.subrange(index as int, self@.len() as int)
    }

    fn base_length(&self) -> (r: usize) {
        self.len()
    }

    fn cut_at_index(&mut self, index: usize) -> (r: Self) {
        let whole: &'a [T] = *self;
        let left = vstd::slice::slice_subrange(whole, 0, index);
        let right = vstd::slice::slice_subrange(whole, index, whole.len());
        *self = right;
        left
    }
}

/// `<[T]>::split_at_mut`: the two halves of a mutable slice, before and after
/// `mid`. Claimed: they hold the elements before and after `mid`, and what the
/// slice holds at the end is what the two halves hold at the end, in order.
#[verifier::external_body]
pub(crate) fn split_slice_at_mut<'a, T>(s: &'a mut [T], mid: usize) -> (r: (&'a mut [T], &'a mut [T]))
    requires
        mid <= old(s)@.len(),
    ensures
        r.0@ == old(s)@.subrange(0, mid as int),
        r.1@ == old(s)@.subrange(mid as int, old(s)@.len() as int),
        final(s)@ == final(r.0)@ + final(r.1)@,
{
    s.split_at_mut(mid)
}

/// Mutable slices can be cut at any index too.
impl<'a, T: 'a> DivisibleParallelIterator for &'a mut [T] {
    open spec fn iterations(&self) -> nat {
        self@.len()
    }

    open spec fn cut_spec(self, index: usize, left: Self, right: Self) -> bool {
        &&& left@ == self@.subrange(0, index as int)
        &&& right@ == self@.subrange(index as int, self@.len() as int)
    }

    fn base_length(&self) -> (r: usize) {
        self.len()
    }

    fn cut_at_index(&mut self, index: usize) -> (r: Self) {
        let mut whole: &'a mut [T] = &mut [];
        core::mem::swap(self, &mut whole);
        let (left, right) = split_slice_at_mut(whole, index);
        *self = right;
        left
    }
}


/// Cutting a shared slice at `index` hands out its first `index` elements and
/// keeps the others, in order: the elements handed out, then those kept, are
/// the slice's elements.
pub proof fn lemma_shared_slice_cut<'a, T>(whole: &'a [T], index: usize, left: &'a [T], right: &'a [T])
    requires
        index <= whole@.len(),
        whole.cut_spec(index, left, right),
    ensures
        left@ + right@ == whole@,
        left@.len() == index,
{
    assert(left@ + right@ =~= whole@);
}

} // verus!
