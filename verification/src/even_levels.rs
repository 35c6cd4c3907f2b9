//! Adaptor ensuring all final tasks are at an even level of the division
//! tree. This is especially nice for the merge sort: all data ends where it should be.
use vstd::prelude::*;
use crate::divisibility::Divisible;
use crate::folders::AdaptiveIterator;

verus! {

/// Iterator whose tasks all end at an even level from the root.
pub struct EvenLevels<I> {
    even: bool,
    iterator: Option<I>,
}

/// Whether a piece is divided: when its inner iterator holds more than one unit
/// of work (or an unbounded amount), and in any case when not at an even level.
pub open spec fn should_divide<I: Divisible>(e: EvenLevels<I>) -> bool {
    !e.at_even_level() || match e.inner().length() {
        Some(n) => n > 1,
        None => true,
    }
}

impl<I: Divisible> EvenLevels<I> {
    /// The iterator whose divisions are counted.
    pub closed spec fn inner(&self) -> I {
        self.iterator->0
    }

    /// The inner iterator is there and valid.
    pub closed spec fn wf(&self) -> bool {
        self.iterator is Some && self.iterator->0.valid()
    }

    /// Whether this piece is at an even level.
    pub closed spec fn at_even_level(&self) -> bool {
        self.even
    }

    /// Start at the root, which is at an even level.
    pub fn new(iterator: I) -> (r: Self)
        ensures
            r.inner() == iterator,
            r.at_even_level(),
            iterator.valid() ==> r.wf(),
    {
        EvenLevels { even: true, iterator: Some(iterator) }
    }

    /// Whether to divide: when the inner iterator holds more than one unit of
    /// work (or an unbounded amount), and in any case when not at an even level.
    pub fn is_divisible(&self) -> (r: bool)
        requires
            self.wf(),
        ensures
            r == should_divide(*self),
            self.inner().length() is None ==> r,
            self.inner().length() matches Some(n) && n > 1 ==> r,
            self.inner().length() matches Some(n) && n <= 1 ==> r == !self.at_even_level(),
    {
        let inner_divisible = match &self.iterator {
            Some(i) => match i.base_length() {
                Some(n) => n > 1,
                None => true,
            },
            None => true,
        };
        inner_divisible || !self.even
    }

    /// How much work is left.
    pub fn len(&self) -> (r: Option<usize>)
        requires
            self.wf(),
        ensures
            r matches Some(n) ==> self.inner().length() == Some(n as nat),
            r is None ==> self.inner().length() is None,
    {
        match &self.iterator {
            Some(i) => i.base_length(),
            None => None,
        }
    }

    /// Borrow the left part of the inner iterator, cut at `size`, at the same
    /// level; this iterator keeps the right part.
    pub fn borrow_on_left_for(&mut self, size: usize) -> (r: Self)
        requires
            old(self).wf(),
            old(self).inner().length() matches Some(n) ==> size <= n,
        ensures
            final(self).wf(),
            r.wf(),
            old(self).inner().divides(size, r.inner(), final(self).inner()),
            r.at_even_level() == old(self).at_even_level(),
            final(self).at_even_level() == old(self).at_even_level(),
    {
        let (left, right) = self.iterator.take().unwrap().divide_at(size);
        self.iterator = Some(right);
        EvenLevels { even: self.even, iterator: Some(left) }
    }
}

impl<I: AdaptiveIterator> EvenLevels<I> {
    /// The items of the left part of the inner iterator, cut at `size`; this
    /// iterator keeps the right part.
    pub fn sequential_borrow_on_left_for(&mut self, size: usize) -> (r: Vec<I::Item>)
        requires
            old(self).wf(),
            old(self).inner().length() matches Some(n) && size <= n,
        ensures
            final(self).wf(),
            exists|left: I| #[trigger]
                old(self).inner().divides(size, left, final(self).inner()) && r@ == left.items(),
    {
        let ghost whole = self.iterator->0;
        let (left, right) = self.iterator.take().unwrap().divide_at(size);
        self.iterator = Some(right);
        let ghost left_g = left;
        let r = left.into_items();
        assert(whole.divides(size, left_g, self.inner()));
        r
    }
}

/// Divided as the inner iterator; both parts are one level further down.
impl<I: Divisible> Divisible for EvenLevels<I> {
    type Power = I::Power;

    open spec fn length(&self) -> Option<nat> {
        self.inner().length()
    }

    open spec fn valid(&self) -> bool {
        self.wf()
    }

    open spec fn divides(self, index: usize, left: Self, right: Self) -> bool {
        &&& self.inner().divides(index, left.inner(), right.inner())
        &&& left.wf() && right.wf()
        &&& left.at_even_level() == !self.at_even_level()
        &&& right.at_even_level() == !self.at_even_level()
    }

    fn base_length(&self) -> (r: Option<usize>) {
        match &self.iterator {
            Some(i) => i.base_length(),
            None => None,
        }
    }

    fn divide_at(self, index: usize) -> (r: (Self, Self)) {
        let (left, right) = self.iterator.unwrap().divide_at(index);
        (
            EvenLevels { even: !self.even, iterator: Some(left) },
            EvenLevels { even: !self.even, iterator: Some(right) },
        )
    }
}

/// Cutting twice comes back to the level parity one started from: pieces two
/// cuts below the root are at an even level, like the root.
pub proof fn lemma_even_levels_two_cuts<I: Divisible>(
    e: EvenLevels<I>,
    i: usize,
    left: EvenLevels<I>,
    right: EvenLevels<I>,
    j: usize,
    piece: EvenLevels<I>,
    other: EvenLevels<I>,
)
    requires
        e.divides(i, left, right),
        left.divides(j, piece, other) || right.divides(j, piece, other),
    ensures
        piece.at_even_level() == e.at_even_level(),
        other.at_even_level() == e.at_even_level(),
{
}

/// A piece is divided whenever its inner iterator holds more than one unit of
/// work (or an unbounded amount), whatever its level; a piece holding at most
/// one unit is divided exactly when it is not at an even level.
pub proof fn lemma_should_divide<I: Divisible>(e: EvenLevels<I>)
    ensures
        e.inner().length() is None ==> should_divide(e),
        e.inner().length() matches Some(n) && n > 1 ==> should_divide(e),
        e.inner().length() matches Some(n) && n <= 1 ==> (should_divide(e) <==> !e.at_even_level()),
{
}

/// Along a path of divisions from a root at an even level, the pieces are at an
/// even level exactly at even depths; so a piece that is not divided (at the end
/// of the path) sits at an even depth.
pub proof fn lemma_even_levels_path<I: Divisible>(
    path: Seq<EvenLevels<I>>,
    cuts: Seq<usize>,
    others: Seq<EvenLevels<I>>,
)
    requires
        path.len() >= 1,
        cuts.len() == path.len() - 1,
        others.len() == path.len() - 1,
        path[0].at_even_level(),
        forall|k: int|
            #![trigger cuts[k]]
            0 <= k < path.len() - 1 ==> path[k].divides(cuts[k], path[k + 1], others[k]) || path[k].divides(
                cuts[k],
                others[k],
                path[k + 1],
            ),
    ensures
        forall|k: int| 0 <= k < path.len() ==> #[trigger] path[k].at_even_level() == (k % 2 == 0),
        !should_divide(path.last()) ==> (path.len() - 1) % 2 == 0,
    decreases path.len(),
{
    if path.len() > 1 {
        let n = path.len() - 1;
        lemma_even_levels_path(path.drop_last(), cuts.drop_last(), others.drop_last());
        assert forall|k: int| 0 <= k < path.len() implies #[trigger] path[k].at_even_level() == (k % 2 == 0) by {
            if k < n {
                assert(path.drop_last()[k] == path[k]);
            } else {
                assert(path.drop_last()[k - 1] == path[k - 1]);
                let j = k - 1;
                assert(cuts[j] == cuts[j]);
                assert(path[j + 1] == path[k]);
                assert(path[j].divides(cuts[j], path[j + 1], others[j]) || path[j].divides(
                    cuts[j],
                    others[j],
                    path[j + 1],
                ));
                assert(path[k].at_even_level() == !path[j].at_even_level());
                assert((k % 2 == 0) == !(j % 2 == 0)) by (nonlinear_arith)
                    requires
                        j == k - 1,
                ;
            }
        }
        assert(path.last() == path[n]);
    }
}

/// The items are those of the inner iterator.
impl<I: AdaptiveIterator> AdaptiveIterator for EvenLevels<I> {
    type Item = I::Item;

    open spec fn items(&self) -> Seq<I::Item> {
        self.inner().items()
    }

    proof fn lemma_divides_items(self, index: usize, left: Self, right: Self) {
        self.inner().lemma_divides_items(index, left.inner(), right.inner());
    }

    proof fn lemma_items_length(self) {
        self.inner().lemma_items_length();
    }

    fn into_items(self) -> (r: Vec<I::Item>) {
        self.iterator.unwrap().into_items()
    }
}

} // verus!
