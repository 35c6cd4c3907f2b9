//! Parallel iterator repeating one element.
use vstd::prelude::*;
use crate::base::borrowing::BorrowingParallelIterator;
use crate::divisibility::{Divisible, IndexedPower};

verus! {

/// Infinite parallel iterator giving clones of one element.
pub struct Repeat<T> {
    element: T,
}

/// A finite piece of a `Repeat`: `size` more clones of the element.
pub struct BorrowedRepeat<'a, T> {
    element: &'a T,
    size: usize,
}

/// Repeat `elt` forever.
pub fn repeat<T: Clone>(elt: T) -> (r: Repeat<T>)
    ensures
        r.element() == elt,
{
    Repeat { element: elt }
}

impl<T: Clone> Repeat<T> {
    /// The repeated element.
    pub closed spec fn element(&self) -> T {
        self.element
    }

    /// Borrow the next `size` iterations.
    pub fn par_borrow<'e>(&'e mut self, size: usize) -> (r: BorrowedRepeat<'e, T>)
        ensures
            r.element() == old(self).element(),
            r.size() == size,
            final(self).element() == old(self).element(),
    {
        BorrowedRepeat { element: &self.element, size }
    }
}

impl<'a, T: Clone> BorrowedRepeat<'a, T> {
    /// The repeated element.
    pub closed spec fn element(&self) -> T {
        *self.element
    }

    /// How many clones are left.
    pub closed spec fn size(&self) -> nat {
        self.size as nat
    }
}

/// The clones left are handed out in a vector.
impl<'a, T: Clone> BorrowingParallelIterator for BorrowedRepeat<'a, T> {
    type SeqIter = Vec<T>;

    open spec fn iterations(&self) -> nat {
        self.size()
    }

    /// It is worth dividing when more than one clone is left.
    fn should_be_divided(&self) -> (r: bool) {
        self.size > 1
    }

    /// How many clones are left.
    fn iterations_number(&self) -> (r: usize) {
        self.size
    }

    /// Take the next `size` clones.
    fn seq_borrow(&mut self, size: usize) -> (r: Vec<T>)
        ensures
            final(self).size() == old(self).size() - size,
            final(self).element() == old(self).element(),
            r@.len() == size,
            forall|k: int| 0 <= k < size ==> cloned(old(self).element(), #[trigger] r@[k]),
    {
        self.size = self.size - size;
        let mut v: Vec<T> = Vec::new();
        let mut k: usize = 0;
        while k < size
            invariant
                k <= size,
                v@.len() == k,
                forall|j: int| 0 <= j < k ==> cloned(*self.element, #[trigger] v@[j]),
            decreases size - k,
        {
            v.push(self.element.clone());
            k = k + 1;
        }
        v
    }
}

/// Cutting at `index` gives `index` clones on the left and the rest on the right.
impl<'a, T: Clone> Divisible for BorrowedRepeat<'a, T> {
    type Power = IndexedPower;

    open spec fn length(&self) -> Option<nat> {
        Some(self.size())
    }

    open spec fn valid(&self) -> bool {
        true
    }

    open spec fn divides(self, index: usize, left: Self, right: Self) -> bool {
        &&& left.element() == self.element()
        &&& right.element() == self.element()
        &&& left.size() == index
        &&& right.size() == self.size() - index
    }

    fn base_length(&self) -> (r: Option<usize>) {
        Some(self.size)
    }

    fn divide_at(self, index: usize) -> (r: (Self, Self)) {
        (
            BorrowedRepeat { element: self.element, size: index },
            BorrowedRepeat { element: self.element, size: self.size - index },
        )
    }
}

} // verus!
