//! Parallel iterators given by a state, a way to get the next item out of
//! it, and a fast way to skip ahead.
use vstd::prelude::*;
use crate::base::borrowing::BorrowingParallelIterator;
use crate::divisibility::{Divisible, IndexedPower};

verus! {

/// A state `iter`, from which `next_op(&mut iter)` gets the next item, and
/// `skip(&mut iter, n)` gives the state `n` items further.
pub struct Skipable<I, N, S> {
    iter: I,
    next_op: N,
    skip: S,
}

/// A finite piece of a `Skipable`: `count` items from the state `iter` on.
pub struct BorrowingSkipable<'a, I, N, S> {
    iter: I,
    count: usize,
    next_op: &'a N,
    skip: &'a S,
}

/// Sequential iterator on the items of a `Skipable`.
pub struct SeqSkipable<'a, I, N> {
    iter: I,
    next_op: &'a N,
}

/// The closures accept every state.
pub open spec fn skipable_ready<I, E, N: Fn(&mut I) -> E, S: Fn(&mut I, usize) -> I>(
    next_op: N,
    skip: S,
) -> bool {
    &&& forall|i: &mut I| #[trigger] next_op.requires((i,))
    &&& forall|i: &mut I, n: usize| #[trigger] skip.requires((i, n))
}

/// Calling `skip` on the state `before` with `n` may give `ahead`.
pub open spec fn skips_ahead<I, S: Fn(&mut I, usize) -> I>(skip: S, before: I, n: usize, ahead: I) -> bool {
    exists|a: &mut I| *a == before && #[trigger] skip.ensures((a, n), ahead)
}

/// A parallel iterator from an initial state, a way to get the next item and
/// a way to skip ahead.
pub fn skip<I, N, S, E>(init: I, next_op: N, skip_op: S) -> (r: Skipable<I, N, S>) where
    N: Fn(&mut I) -> E,
    S: Fn(&mut I, usize) -> I,

    ensures
        r.state() == init,
        r.next_function() == next_op,
        r.skip_function() == skip_op,
{
    Skipable { iter: init, next_op, skip: skip_op }
}

impl<I, E, N: Fn(&mut I) -> E, S: Fn(&mut I, usize) -> I> Skipable<I, N, S> {
    /// The current state.
    pub closed spec fn state(&self) -> I {
        self.iter
    }

    /// Gets the next item.
    pub closed spec fn next_function(&self) -> N {
        self.next_op
    }

    /// Skips ahead.
    pub closed spec fn skip_function(&self) -> S {
        self.skip
    }

    /// Borrowing `size` iterations gives exactly `size` iterations.
    pub fn bound_iterations_number(&self, size: usize) -> (r: usize)
        ensures
            r == size,
    {
        size
    }

    /// Hand out the next `size` items; this iterator goes on from the state
    /// `size` items further.
    pub fn par_borrow<'e>(&'e mut self, size: usize) -> (r: BorrowingSkipable<'e, I, N, S>)
        requires
            skipable_ready(old(self).next_function(), old(self).skip_function()),
        ensures
            r.count() == size,
            r.next_function() == old(self).next_function(),
            r.skip_function() == old(self).skip_function(),
            final(self).next_function() == old(self).next_function(),
            final(self).skip_function() == old(self).skip_function(),
            exists|a: &mut I, ahead: I|
                *a == old(self).state() && *final(a) == r.state() && ahead == final(self).state()
                    && #[trigger] old(self).skip_function().ensures((a, size), ahead),
    {
        assert(self.skip_function() == self.skip);
        let mut ahead = (self.skip)(&mut self.iter, size);
        core::mem::swap(&mut ahead, &mut self.iter);
        BorrowingSkipable { iter: ahead, count: size, next_op: &self.next_op, skip: &self.skip }
    }
}

impl<'a, I, E, N: Fn(&mut I) -> E, S: Fn(&mut I, usize) -> I> BorrowingSkipable<'a, I, N, S> {
    /// The current state.
    pub closed spec fn state(&self) -> I {
        self.iter
    }

    /// How many items are left.
    pub closed spec fn count(&self) -> nat {
        self.count as nat
    }

    /// Gets the next item.
    pub closed spec fn next_function(&self) -> N {
        *self.next_op
    }

    /// Skips ahead.
    pub closed spec fn skip_function(&self) -> S {
        *self.skip
    }
}

/// The items are handed out to a sequential iterator starting from the current state.
impl<'a, I, E, N: Fn(&mut I) -> E, S: Fn(&mut I, usize) -> I> BorrowingParallelIterator for BorrowingSkipable<
    'a,
    I,
    N,
    S,
> {
    type SeqIter = SeqSkipable<'a, I, N>;

    open spec fn iterations(&self) -> nat {
        self.count()
    }

    /// How many items are left.
    fn iterations_number(&self) -> (r: usize) {
        self.count
    }

    /// It is worth dividing when more than one item is left.
    fn should_be_divided(&self) -> (r: bool) {
        self.count > 1
    }

    /// Hand out the next `size` items as a sequential iterator (its first
    /// `size` items); this piece goes on from the state `size` items further.
    fn seq_borrow(&mut self, size: usize) -> (r: SeqSkipable<'a, I, N>)
        ensures
            final(self).count() == old(self).count() - size,
            r.next_function() == old(self).next_function(),
            final(self).next_function() == old(self).next_function(),
            final(self).skip_function() == old(self).skip_function(),
            exists|a: &mut I, ahead: I|
                *a == old(self).state() && *final(a) == r.state() && ahead == final(self).state()
                    && #[trigger] old(self).skip_function().ensures((a, size), ahead),
    {
        self.count = self.count - size;
        assert(self.skip_function() == *self.skip);
        let mut ahead = (self.skip)(&mut self.iter, size);
        core::mem::swap(&mut ahead, &mut self.iter);
        SeqSkipable { iter: ahead, next_op: self.next_op }
    }
}

/// Cutting at `index` keeps the first `index` items on the left (in the state
/// that skipping leaves); the right part starts from the state `index` items further.
impl<'a, I, E, N: Fn(&mut I) -> E, S: Fn(&mut I, usize) -> I> Divisible for BorrowingSkipable<
    'a,
    I,
    N,
    S,
> {
    type Power = IndexedPower;

    open spec fn length(&self) -> Option<nat> {
        Some(self.count())
    }

    open spec fn valid(&self) -> bool {
        skipable_ready(self.next_function(), self.skip_function())
    }

    open spec fn divides(self, index: usize, left: Self, right: Self) -> bool {
        &&& left.count() == index
        &&& right.count() == self.count() - index
        &&& skips_ahead(self.skip_function(), self.state(), index, right.state())
        &&& left.next_function() == self.next_function()
        &&& right.next_function() == self.next_function()
        &&& left.skip_function() == self.skip_function()
        &&& right.skip_function() == self.skip_function()
    }

    fn base_length(&self) -> (r: Option<usize>) {
        Some(self.count)
    }

    /// The left part keeps the state that skipping `index` items leaves,
    /// the right part starts from the state skipping gives.
    fn divide_at(self, index: usize) -> (r: (Self, Self))
        ensures
            exists|a: &mut I|
                *a == self.state() && *final(a) == r.0.state() && #[trigger] self.skip_function().ensures(
                    (a, index),
                    r.1.state(),
                ),
    {
        assert(self.state() == self.iter);
        let mut i = self.iter;
        assert(self.skip_function() == *self.skip);
        let right_i = (self.skip)(&mut i, index);
        let right = BorrowingSkipable {
            iter: right_i,
            count: self.count - index,
            next_op: self.next_op,
            skip: self.skip,
        };
        let left = BorrowingSkipable { iter: i, count: index, next_op: self.next_op, skip: self.skip };
        assert(left.state() == i);
        assert(right.state() == right_i);
        (left, right)
    }
}

impl<'a, I, E, N: Fn(&mut I) -> E> SeqSkipable<'a, I, N> {
    /// The current state.
    pub closed spec fn state(&self) -> I {
        self.iter
    }

    /// Gets the next item.
    pub closed spec fn next_function(&self) -> N {
        *self.next_op
    }

    /// The next item, got out of the state.
    pub fn next(&mut self) -> (r: Option<E>)
        requires
            forall|i: &mut I| #[trigger] old(self).next_function().requires((i,)),
        ensures
            exists|a: &mut I, e: E|
                r == Some(e) && *a == old(self).state() && *final(a) == final(self).state()
                    && #[trigger] old(self).next_function().ensures((a,), e),
            final(self).next_function() == old(self).next_function(),
    {
        assert(self.next_function() == *self.next_op);
        let e = (self.next_op)(&mut self.iter);
        Some(e)
    }
}

} // verus!
