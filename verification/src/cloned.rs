//! Adaptor giving copies of the items of an iterator.
use vstd::prelude::*;
use crate::divisibility::Divisible;
use crate::folders::AdaptiveIterator;

verus! {

/// Iterator giving copies of the items of `iterator`.
pub struct Cloned<I> {
    iterator: Option<I>,
}

impl<I: Divisible> Cloned<I> {
    /// The iterator whose items are copied.
    pub closed spec fn inner(&self) -> I {
        self.iterator->0
    }

    /// The inner iterator is there and valid.
    pub closed spec fn wf(&self) -> bool {
        self.iterator is Some && self.iterator->0.valid()
    }

    /// Copy the items of `iterator`.
    pub fn new(iterator: I) -> (r: Self)
        ensures
            r.inner() == iterator,
            iterator.valid() ==> r.wf(),
    {
        Cloned { iterator: Some(iterator) }
    }

    /// How much work is left.
    pub fn len(&self) -> (r: Option<usize>)
        requires
            self.wf(),
        ensures
            r matches Some(n) ==> self.inner().length() == Some(n as nat),
            r is None ==> self.inner().length() is None,
    {
        match &self.iterator {
            Some(i) => i.base_length(),
            None => None,
        }
    }

    /// Borrow the left part of the inner iterator, cut at `size`; this
    /// iterator keeps the right part.
    pub fn borrow_on_left_for(&mut self, size: usize) -> (r: Self)
        requires
            old(self).wf(),
            old(self).inner().length() matches Some(n) ==> size <= n,
        ensures
            final(self).wf(),
            r.wf(),
            old(self).inner().divides(size, r.inner(), final(self).inner()),
    {
        let (left, right) = self.iterator.take().unwrap().divide_at(size);
        self.iterator = Some(right);
        Cloned { iterator: Some(left) }
    }
}

impl<I: AdaptiveIterator> Cloned<I> where I::Item: Copy {
    /// The items of the left part of the inner iterator, cut at `size`; this
    /// iterator keeps the right part.
    pub fn sequential_borrow_on_left_for(&mut self, size: usize) -> (r: Vec<I::Item>)
        requires
            old(self).wf(),
            old(self).inner().length() matches Some(n) && size <= n,
        ensures
            final(self).wf(),
            exists|left: I| #[trigger]
                old(self).inner().divides(size, left, final(self).inner()) && r@ == left.items(),
    {
        let ghost whole = self.iterator->0;
        let (left, right) = self.iterator.take().unwrap().divide_at(size);
        self.iterator = Some(right);
        let ghost left_g = left;
        let r = left.into_items();
        assert(whole.divides(size, left_g, self.inner()));
        r
    }
}

/// Divided as the inner iterator.
impl<I: Divisible> Divisible for Cloned<I> {
    type Power = I::Power;

    open spec fn length(&self) -> Option<nat> {
        self.inner().length()
    }

    open spec fn valid(&self) -> bool {
        self.wf()
    }

    open spec fn divides(self, index: usize, left: Self, right: Self) -> bool {
        &&& self.inner().divides(index, left.inner(), right.inner())
        &&& left.wf() && right.wf()
    }

    fn base_length(&self) -> (r: Option<usize>) {
        match &self.iterator {
            Some(i) => i.base_length(),
            None => None,
        }
    }

    fn divide_at(self, index: usize) -> (r: (Self, Self)) {
        let (left, right) = self.iterator.unwrap().divide_at(index);
        (Cloned { iterator: Some(left) }, Cloned { iterator: Some(right) })
    }
}

/// The items are copies of the items of the inner iterator.
impl<I: AdaptiveIterator> AdaptiveIterator for Cloned<I> where I::Item: Copy {
    type Item = I::Item;

    open spec fn items(&self) -> Seq<I::Item> {
        self.inner().items()
    }

    proof fn lemma_divides_items(self, index: usize, left: Self, right: Self) {
        self.inner().lemma_divides_items(index, left.inner(), right.inner());
    }

    proof fn lemma_items_length(self) {
        self.inner().lemma_items_length();
    }

    fn into_items(self) -> (r: Vec<I::Item>) {
        let items = self.iterator.unwrap().into_items();
        let mut copies: Vec<I::Item> = Vec::new();
        let mut k: usize = 0;
        while k < items.len()
            invariant
                k <= items@.len(),
                copies@ == items@.subrange(0, k as int),
            decreases items@.len() - k,
        {
            copies.push(items[k]);
            k = k + 1;
            assert(copies@ =~= items@.subrange(0, k as int));
        }
        assert(copies@ =~= items@);
        copies
    }
}

} // verus!
