//! Adaptor keeping the items of an iterator which satisfy a predicate.
use vstd::prelude::*;
use crate::divisibility::Divisible;
use crate::folders::AdaptiveIterator;

verus! {

/// The predicate accepts every item.
pub open spec fn predicate_ready<T, P: Fn(&T) -> bool>(filter_op: P) -> bool {
    forall|x: T| #[trigger] filter_op.requires((&x,))
}

/// Iterator on the items of `iterator` which satisfy `filter_op`.
pub struct Filter<I, P> {
    iterator: Option<I>,
    filter_op: P,
}

/// A piece of a `Filter`, borrowing its predicate.
pub struct BorrowingFilter<'a, I, P> {
    iterator: Option<I>,
    filter_op: &'a P,
}

/// Sequential iterator on the items which satisfy a predicate.
pub struct SeqFilter<'a, T, P> {
    items: Vec<T>,
    position: usize,
    filter_op: &'a P,
}

impl<I: Divisible, P> Filter<I, P> {
    /// The iterator whose items are filtered.
    pub closed spec fn inner(&self) -> I {
        self.iterator->0
    }

    /// The predicate.
    pub closed spec fn predicate(&self) -> P {
        self.filter_op
    }

    /// The inner iterator is there and valid.
    pub closed spec fn wf(&self) -> bool {
        self.iterator is Some && self.iterator->0.valid()
    }

    /// Keep the items of `iterator` which satisfy `filter_op`.
    pub fn new(iterator: I, filter_op: P) -> (r: Self)
        ensures
            r.inner() == iterator,
            r.predicate() == filter_op,
            iterator.valid() ==> r.wf(),
    {
        Filter { iterator: Some(iterator), filter_op }
    }

    /// How much work is left (items may then be filtered out).
    pub fn len(&self) -> (r: Option<usize>)
        requires
            self.wf(),
        ensures
            r matches Some(n) ==> self.inner().length() == Some(n as nat),
            r is None ==> self.inner().length() is None,
    {
        match &self.iterator {
            Some(i) => i.base_length(),
            None => None,
        }
    }

    /// Borrow the left part of the inner iterator, cut at `size`; this iterator keeps the right part.
    pub fn borrow_on_left_for<'e>(&'e mut self, size: usize) -> (r: BorrowingFilter<'e, I, P>)
        requires
            old(self).wf(),
            old(self).inner().length() matches Some(n) ==> size <= n,
        ensures
            final(self).wf(),
            r.wf(),
            old(self).inner().divides(size, r.inner(), final(self).inner()),
            r.predicate() == old(self).predicate(),
            final(self).predicate() == old(self).predicate(),
    {
        let (left, right) = self.iterator.take().unwrap().divide_at(size);
        self.iterator = Some(right);
        BorrowingFilter { iterator: Some(left), filter_op: &self.filter_op }
    }
}

impl<I: AdaptiveIterator, P: Fn(&I::Item) -> bool> Filter<I, P> where I::Item: Copy {
    /// Borrow the left part of the inner iterator, cut at `size`, as a
    /// sequential iterator; this iterator keeps the right part.
    pub fn sequential_borrow_on_left_for<'e>(&'e mut self, size: usize) -> (r: SeqFilter<'e, I::Item, P>)
        requires
            old(self).wf(),
            old(self).inner().length() matches Some(n) && size <= n,
        ensures
            final(self).wf(),
            r.wf(),
            exists|left: I| #[trigger]
                old(self).inner().divides(size, left, final(self).inner()) && r.remaining() == left.items(),
            r.predicate() == old(self).predicate(),
            final(self).predicate() == old(self).predicate(),
    {
        let ghost whole = self.iterator->0;
        let (left, right) = self.iterator.take().unwrap().divide_at(size);
        self.iterator = Some(right);
        let ghost left_g = left;
        let r = SeqFilter::new(left.into_items(), &self.filter_op);
        assert(whole.divides(size, left_g, self.inner()));
        r
    }
}

impl<'a, I: Divisible, P> BorrowingFilter<'a, I, P> {
    /// The iterator whose items are filtered.
    pub closed spec fn inner(&self) -> I {
        self.iterator->0
    }

    /// The predicate.
    pub closed spec fn predicate(&self) -> P {
        *self.filter_op
    }

    /// The inner iterator is there and valid.
    pub closed spec fn wf(&self) -> bool {
        self.iterator is Some && self.iterator->0.valid()
    }

    /// How much work is left (items may then be filtered out).
    pub fn len(&self) -> (r: Option<usize>)
        requires
            self.wf(),
        ensures
            r matches Some(n) ==> self.inner().length() == Some(n as nat),
            r is None ==> self.inner().length() is None,
    {
        match &self.iterator {
            Some(i) => i.base_length(),
            None => None,
        }
    }

    /// Borrow the left part of the inner iterator, cut at `size`; this piece keeps the right part.
    pub fn borrow_on_left_for(&mut self, size: usize) -> (r: BorrowingFilter<'a, I, P>)
        requires
            old(self).wf(),
            old(self).inner().length() matches Some(n) ==> size <= n,
        ensures
            final(self).wf(),
            r.wf(),
            old(self).inner().divides(size, r.inner(), final(self).inner()),
            r.predicate() == old(self).predicate(),
            final(self).predicate() == old(self).predicate(),
    {
        let (left, right) = self.iterator.take().unwrap().divide_at(size);
        self.iterator = Some(right);
        BorrowingFilter { iterator: Some(left), filter_op: self.filter_op }
    }
}

impl<'a, I: AdaptiveIterator, P: Fn(&I::Item) -> bool> BorrowingFilter<'a, I, P> where I::Item: Copy {
    /// Borrow the left part of the inner iterator, cut at `size`, as a
    /// sequential iterator; this piece keeps the right part.
    pub fn sequential_borrow_on_left_for(&mut self, size: usize) -> (r: SeqFilter<'a, I::Item, P>)
        requires
            old(self).wf(),
            old(self).inner().length() matches Some(n) && size <= n,
        ensures
            final(self).wf(),
            r.wf(),
            exists|left: I| #[trigger]
                old(self).inner().divides(size, left, final(self).inner()) && r.remaining() == left.items(),
            r.predicate() == old(self).predicate(),
            final(self).predicate() == old(self).predicate(),
    {
        let ghost whole = self.iterator->0;
        let (left, right) = self.iterator.take().unwrap().divide_at(size);
        self.iterator = Some(right);
        let ghost left_g = left;
        let r = SeqFilter::new(left.into_items(), self.filter_op);
        assert(whole.divides(size, left_g, self.inner()));
        r
    }
}

/// Divided as the inner iterator; both parts share the predicate.
impl<'a, I: Divisible, P> Divisible for BorrowingFilter<'a, I, P> {
    type Power = I::Power;

    open spec fn length(&self) -> Option<nat> {
        self.inner().length()
    }

    open spec fn valid(&self) -> bool {
        self.wf()
    }

    open spec fn divides(self, index: usize, left: Self, right: Self) -> bool {
        &&& self.inner().divides(index, left.inner(), right.inner())
        &&& left.wf() && right.wf()
        &&& left.predicate() == self.predicate()
        &&& right.predicate() == self.predicate()
    }

    fn base_length(&self) -> (r: Option<usize>) {
        match &self.iterator {
            Some(i) => i.base_length(),
            None => None,
        }
    }

    fn divide_at(self, index: usize) -> (r: (Self, Self)) {
        let (left, right) = self.iterator.unwrap().divide_at(index);
        (
            BorrowingFilter { iterator: Some(left), filter_op: self.filter_op },
            BorrowingFilter { iterator: Some(right), filter_op: self.filter_op },
        )
    }
}

impl<'a, T: Copy, P: Fn(&T) -> bool> SeqFilter<'a, T, P> {
    /// The items not yet looked at.
    pub closed spec fn remaining(&self) -> Seq<T> {
        self.items@.subrange(self.position as int, self.items@.len() as int)
    }

    /// The predicate.
    pub closed spec fn predicate(&self) -> P {
        *self.filter_op
    }

    /// The position is within the items.
    pub closed spec fn wf(&self) -> bool {
        self.position <= self.items@.len()
    }

    /// Go through `items`, keeping those which satisfy `filter_op`.
    pub fn new(items: Vec<T>, filter_op: &'a P) -> (r: Self)
        ensures
            r.remaining() == items@,
            r.predicate() == *filter_op,
            r.wf(),
    {
        let r = SeqFilter { items, position: 0, filter_op };
        assert(r.remaining() =~= r.items@);
        r
    }

    /// The next item which satisfies the predicate, skipping those which do
    /// not; nothing when no item is left.
    pub fn next(&mut self) -> (r: Option<T>)
        requires
            old(self).wf(),
            predicate_ready::<T, P>(old(self).predicate()),
        ensures
            final(self).wf(),
            final(self).predicate() == old(self).predicate(),
            match r {
                Some(x) => exists|k: int|
                    0 <= k < old(self).remaining().len() && #[trigger] old(self).remaining()[k] == x
                        && old(self).predicate().ensures((&x,), true) && (forall|j: int|
                        0 <= j < k ==> old(self).predicate().ensures(
                            (&#[trigger] old(self).remaining()[j],),
                            false,
                        )) && final(self).remaining() == old(self).remaining().subrange(
                        k + 1,
                        old(self).remaining().len() as int,
                    ),
                None => {
                    &&& final(self).remaining().len() == 0
                    &&& forall|j: int|
                        0 <= j < old(self).remaining().len() ==> old(self).predicate().ensures(
                            (&#[trigger] old(self).remaining()[j],),
                            false,
                        )
                },
            },
    {
        let ghost start = self.position as int;
        let ghost all = self.items@;
        while self.position < self.items.len()
            invariant
                predicate_ready::<T, P>(self.predicate()),
                self.items@ == all,
                start == old(self).position,
                start <= self.position <= all.len(),
                self.predicate() == old(self).predicate(),
                old(self).remaining() == all.subrange(start, all.len() as int),
                forall|j: int| start <= j < self.position ==> self.predicate().ensures((&#[trigger] all[j],), false),
            decreases all.len() - self.position,
        {
            let k = self.position;
            let keep = (self.filter_op)(&self.items[k]);
            self.position = k + 1;
            if keep {
                proof {
                    let rem = old(self).remaining();
                    assert(rem == all.subrange(start, all.len() as int));
                    assert(k < all.len());
                    assert(rem[k - start] == all[k as int]);
                    assert forall|j: int| 0 <= j < k - start implies self.predicate().ensures(
                        (&#[trigger] rem[j],),
                        false,
                    ) by {
                        assert(rem[j] == all[j + start]);
                    }
                    assert(self.remaining() =~= rem.subrange(k - start + 1, rem.len() as int));
                }
                return Some(self.items[k]);
            }
        }
        proof {
            let rem = old(self).remaining();
            assert forall|j: int| 0 <= j < rem.len() implies self.predicate().ensures(
                (&#[trigger] rem[j],),
                false,
            ) by {
                assert(rem[j] == all[j + start]);
            }
        }
        None
    }
}

} // verus!
