//! Parallel iterators which may be of two different types.
use vstd::prelude::*;
use crate::base::borrowing::BorrowingParallelIterator;
use crate::divisibility::{BasicPower, Divisible};

verus! {

/// Parallel iterator which may be of two different types.
pub enum EitherIter<I, J> {
    I(I),
    J(J),
}

/// An `EitherIter` is divided as the iterator it holds; both parts hold the
/// same kind of iterator.
impl<I: Divisible, J: Divisible> Divisible for EitherIter<I, J> {
    type Power = BasicPower;

    open spec fn length(&self) -> Option<nat> {
        match self {
            EitherIter::I(i) => i.length(),
            EitherIter::J(j) => j.length(),
        }
    }

    open spec fn valid(&self) -> bool {
        match self {
            EitherIter::I(i) => i.valid(),
            EitherIter::J(j) => j.valid(),
        }
    }

    open spec fn divides(self, index: usize, left: Self, right: Self) -> bool {
        match (self, left, right) {
            (EitherIter::I(i), EitherIter::I(l), EitherIter::I(r)) => i.divides(index, l, r),
            (EitherIter::J(j), EitherIter::J(l), EitherIter::J(r)) => j.divides(index, l, r),
            _ => false,
        }
    }

    fn base_length(&self) -> (r: Option<usize>) {
        match self {
            EitherIter::I(i) => i.base_length(),
            EitherIter::J(j) => j.base_length(),
        }
    }

    fn divide_at(self, index: usize) -> (r: (Self, Self)) {
        match self {
            EitherIter::I(i) => {
                let (left, right) = i.divide_at(index);
                (EitherIter::I(left), EitherIter::I(right))
            },
            EitherIter::J(j) => {
                let (left, right) = j.divide_at(index);
                (EitherIter::J(left), EitherIter::J(right))
            },
        }
    }
}

/// An `EitherIter` hands its iterations out as the iterator it holds does.
impl<I: BorrowingParallelIterator, J: BorrowingParallelIterator> BorrowingParallelIterator for EitherIter<
    I,
    J,
> {
    type SeqIter = EitherSeqIter<I::SeqIter, J::SeqIter>;

    open spec fn iterations(&self) -> nat {
        match self {
            EitherIter::I(i) => i.iterations(),
            EitherIter::J(j) => j.iterations(),
        }
    }

    fn iterations_number(&self) -> (r: usize) {
        match self {
            EitherIter::I(i) => i.iterations_number(),
            EitherIter::J(j) => j.iterations_number(),
        }
    }

    fn should_be_divided(&self) -> (r: bool) {
        match self {
            EitherIter::I(i) => i.should_be_divided(),
            EitherIter::J(j) => j.should_be_divided(),
        }
    }

    fn seq_borrow(&mut self, size: usize) -> (r: Self::SeqIter)
        ensures
            (*old(self) is I) == (*final(self) is I),
            (*old(self) is I) == (r is I),
    {
        match self {
            EitherIter::I(i) => EitherSeqIter::I(i.seq_borrow(size)),
            EitherIter::J(j) => EitherSeqIter::J(j.seq_borrow(size)),
        }
    }
}

/// Sequential iterator which may be of two different types.
pub enum EitherSeqIter<I, J> {
    I(I),
    J(J),
}

impl<I: Iterator, J: Iterator<Item = I::Item>> EitherSeqIter<I, J> {
    /// The next item of the iterator held, which stays of the same kind.
    pub fn next(&mut self) -> (r: Option<I::Item>)
        ensures
            (*old(self) is I) == (*final(self) is I),
            *old(self) is I ==> exists|a: &mut I|
                *a == old(self)->I_0 && *final(a) == final(self)->I_0 && #[trigger] call_ensures(
                    I::next,
                    (a,),
                    r,
                ),
            *old(self) is J ==> exists|a: &mut J|
                *a == old(self)->J_0 && *final(a) == final(self)->J_0 && #[trigger] call_ensures(
                    J::next,
                    (a,),
                    r,
                ),
    {
        match self {
            EitherSeqIter::I(i) => i.next(),
            EitherSeqIter::J(j) => j.next(),
        }
    }
}

} // verus!
