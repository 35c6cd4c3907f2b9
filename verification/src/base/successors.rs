//! A parallel version of `std::iter::successors`.
//!
//! Items are not required to be `Clone`, so successors are computed from
//! references; a fast way to skip ahead is needed to cut the iterator.
use vstd::prelude::*;
use crate::base::borrowing::BorrowingParallelIterator;
use crate::divisibility::{Divisible, IndexedPower};

verus! {

/// Potentially infinite parallel iterator on successors: `next`, then
/// `succ(&next)`, and so on; `skip(&x, n)` is the item `n` places after `x`.
pub struct Successors<T, F, S> {
    next: T,
    succ: F,
    skip: S,
}

/// A finite piece of a `Successors`: `count` items from `next` on.
pub struct BorrowedSuccessors<'a, T, F, S> {
    count: usize,
    next: T,
    succ: &'a F,
    skip: &'a S,
}

/// Sequential iterator on successors.
pub struct SeqSuccessors<'a, T, F> {
    next: T,
    succ: &'a F,
}

/// The closures accept every argument.
pub open spec fn successors_ready<T, F: Fn(&T) -> T, S: Fn(&T, usize) -> T>(succ: F, skip: S) -> bool {
    &&& forall|x: T| #[trigger] succ.requires((&x,))
    &&& forall|x: T, n: usize| #[trigger] skip.requires((&x, n))
}

/// Potentially infinite iterator on successors. A fast way to `skip`
/// ahead must be given.
pub fn successors<T, F, S>(first: T, succ: F, skip: S) -> (r: Successors<T, F, S>) where
    F: Fn(&T) -> T,
    S: Fn(&T, usize) -> T,

    ensures
        r.next_item() == first,
        r.successor() == succ,
        r.skipper() == skip,
{
    Successors { next: first, succ, skip }
}

impl<T, F: Fn(&T) -> T, S: Fn(&T, usize) -> T> Successors<T, F, S> {
    /// The next item.
    pub closed spec fn next_item(&self) -> T {
        self.next
    }

    /// Computes the successor of an item.
    pub closed spec fn successor(&self) -> F {
        self.succ
    }

    /// Skips ahead.
    pub closed spec fn skipper(&self) -> S {
        self.skip
    }

    /// Borrowing `size` iterations gives exactly `size` iterations.
    pub fn bound_iterations_number(&self, size: usize) -> (r: usize)
        ensures
            r == size,
    {
        size
    }

    /// Hand out the next `size` items; this iterator goes on `size` items further.
    pub fn par_borrow<'e>(&'e mut self, size: usize) -> (r: BorrowedSuccessors<'e, T, F, S>)
        requires
            successors_ready(old(self).successor(), old(self).skipper()),
        ensures
            r.count() == size,
            r.next_item() == old(self).next_item(),
            r.successor() == old(self).successor(),
            r.skipper() == old(self).skipper(),
            final(self).successor() == old(self).successor(),
            final(self).skipper() == old(self).skipper(),
            old(self).skipper().ensures((&old(self).next_item(), size), final(self).next_item()),
    {
        let mut ahead = (self.skip)(&self.next, size);
        core::mem::swap(&mut ahead, &mut self.next);
        BorrowedSuccessors { count: size, next: ahead, succ: &self.succ, skip: &self.skip }
    }
}

impl<'a, T, F: Fn(&T) -> T, S: Fn(&T, usize) -> T> BorrowedSuccessors<'a, T, F, S> {
    /// How many items are left.
    pub closed spec fn count(&self) -> nat {
        self.count as nat
    }

    /// The next item.
    pub closed spec fn next_item(&self) -> T {
        self.next
    }

    /// Computes the successor of an item.
    pub closed spec fn successor(&self) -> F {
        *self.succ
    }

    /// Skips ahead.
    pub closed spec fn skipper(&self) -> S {
        *self.skip
    }
}

/// The items are handed out to a sequential iterator starting from the next item.
impl<'a, T, F: Fn(&T) -> T, S: Fn(&T, usize) -> T> BorrowingParallelIterator for BorrowedSuccessors<
    'a,
    T,
    F,
    S,
> {
    type SeqIter = SeqSuccessors<'a, T, F>;

    open spec fn iterations(&self) -> nat {
        self.count()
    }

    /// How many items are left.
    fn iterations_number(&self) -> (r: usize) {
        self.count
    }

    /// It is worth dividing when more than one item is left.
    fn should_be_divided(&self) -> (r: bool) {
        self.count > 1
    }

    /// Hand out the next `size` items as a sequential iterator (its first
    /// `size` items); this piece goes on `size` items further.
    fn seq_borrow(&mut self, size: usize) -> (r: SeqSuccessors<'a, T, F>)
        ensures
            final(self).count() == old(self).count() - size,
            r.next_item() == old(self).next_item(),
            r.successor() == old(self).successor(),
            final(self).successor() == old(self).successor(),
            final(self).skipper() == old(self).skipper(),
            old(self).skipper().ensures((&old(self).next_item(), size), final(self).next_item()),
    {
        self.count = self.count - size;
        let mut ahead = (self.skip)(&self.next, size);
        core::mem::swap(&mut ahead, &mut self.next);
        SeqSuccessors { next: ahead, succ: self.succ }
    }
}

/// Cutting at `index` keeps the first `index` items on the left; the right
/// part starts `index` items further.
impl<'a, T, F: Fn(&T) -> T, S: Fn(&T, usize) -> T> Divisible for BorrowedSuccessors<'a, T, F, S> {
    type Power = IndexedPower;

    open spec fn length(&self) -> Option<nat> {
        Some(self.count())
    }

    open spec fn valid(&self) -> bool {
        successors_ready(self.successor(), self.skipper())
    }

    open spec fn divides(self, index: usize, left: Self, right: Self) -> bool {
        &&& left.count() == index
        &&& right.count() == self.count() - index
        &&& left.next_item() == self.next_item()
        &&& self.skipper().ensures((&self.next_item(), index), right.next_item())
        &&& left.successor() == self.successor() && right.successor() == self.successor()
        &&& left.skipper() == self.skipper() && right.skipper() == self.skipper()
    }

    fn base_length(&self) -> (r: Option<usize>) {
        Some(self.count)
    }

    fn divide_at(self, index: usize) -> (r: (Self, Self)) {
        let right_next = (self.skip)(&self.next, index);
        let right = BorrowedSuccessors {
            count: self.count - index,
            next: right_next,
            succ: self.succ,
            skip: self.skip,
        };
        let left = BorrowedSuccessors { count: index, next: self.next, succ: self.succ, skip: self.skip };
        (left, right)
    }
}

impl<'a, T, F: Fn(&T) -> T> SeqSuccessors<'a, T, F> {
    /// The next item.
    pub closed spec fn next_item(&self) -> T {
        self.next
    }

    /// Computes the successor of an item.
    pub closed spec fn successor(&self) -> F {
        *self.succ
    }

    /// The next item; the iterator moves on to its successor.
    pub fn next(&mut self) -> (r: Option<T>)
        requires
            forall|x: T| #[trigger] old(self).successor().requires((&x,)),
        ensures
            r == Some(old(self).next_item()),
            old(self).successor().ensures((&old(self).next_item(),), final(self).next_item()),
            final(self).successor() == old(self).successor(),
    {
        assert(self.successor().requires((&self.next,)));
        let mut next_one = (self.succ)(&self.next);
        core::mem::swap(&mut next_one, &mut self.next);
        Some(next_one)
    }
}

} // verus!
