//! Pieces borrowed from a parallel iterator, which hand out their iterations
//! to sequential iterators.
use vstd::prelude::*;
use crate::divisibility::Divisible;

verus! {

/// A divisible piece of a parallel iterator which knows how many iterations it
/// holds and can hand the next ones out to a sequential iterator.
pub trait BorrowingParallelIterator: Divisible {
    /// The sequential iterator the iterations are handed out to.
    type SeqIter;

    /// How many iterations are held.
    spec fn iterations(&self) -> nat;

    /// How many iterations are held.
    fn iterations_number(&self) -> (r: usize)
        ensures
            r == self.iterations(),
    ;

    /// It is worth dividing when more than one iteration is held.
    fn should_be_divided(&self) -> (r: bool)
        ensures
            r == (self.iterations() > 1),
    ;

    /// Hand the next `size` iterations out; this piece keeps the others.
    fn seq_borrow(&mut self, size: usize) -> (r: Self::SeqIter)
        requires
            old(self).valid(),
            size <= old(self).iterations(),
        ensures
            final(self).valid(),
            final(self).iterations() == old(self).iterations() - size,
    ;
}

} // verus!
