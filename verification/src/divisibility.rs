//! Divisibility: objects that can be cut into independent pieces,
//! and the marker types telling how much control there is over the cut.
use vstd::prelude::*;
use core::ops::Range;
use crate::base::slice::split_slice_at_mut;
use crate::folders::AdaptiveIterator;

verus! {

/// Marker: the object can only be cut in two, at a point it chooses.
pub struct BasicPower();

/// Marker: the object can be cut around a given index.
pub struct BlockedPower();

/// Marker: the object can be cut exactly at a given index.
pub struct IndexedPower();

/// To constrain types a little bit all markers need to implement this.
pub trait Power {
    /// Power we have if we lose indexing.
    type NotIndexed;
}

impl Power for BasicPower {
    type NotIndexed = BasicPower;
}

impl Power for BlockedPower {
    type NotIndexed = BlockedPower;
}

impl Power for IndexedPower {
    type NotIndexed = BlockedPower;
}

/// Markers of objects that can be cut around an index.
pub trait BlockedPowerOrMore: Power {}

/// Marker of computations that go through their input by blocks
/// (possible on inputs that can be cut around an index, or exactly at it).
pub struct BlockedOrMore();

impl BlockedPowerOrMore for BlockedPower {}

impl BlockedPowerOrMore for IndexedPower {}

/// `x` is one of the numbers from `start` included to `end` excluded.
pub open spec fn in_range(start: int, end: int, x: int) -> bool {
    start <= x < end
}

/// Lengths of the two pieces of a cut add up to the length of what was cut.
pub open spec fn conserves(whole: Option<nat>, left: Option<nat>, right: Option<nat>) -> bool {
    match whole {
        Some(n) => left is Some && right is Some && left->0 + right->0 == n,
        None => true,
    }
}

/// All parallelism is an abstraction over divide and conquer: a `Divisible`
/// object can be cut into independent pieces. Its length is the amount of work
/// it holds (`None` for an unbounded amount); 0 means all is done.
pub trait Divisible: Sized {
    /// How much control there is over the cut.
    type Power: Power;

    /// Amount of work held, `None` when unbounded.
    spec fn length(&self) -> Option<nat>;

    /// The object is in a valid state.
    spec fn valid(&self) -> bool;

    /// Amount of work held, `None` when unbounded.
    fn base_length(&self) -> (r: Option<usize>)
        requires
            self.valid(),
        ensures
            r matches Some(n) ==> self.length() == Some(n as nat),
            r is None ==> self.length() is None,
    ;

    /// `left` and `right` are the two parts that cutting `self` at `index` gives.
    spec fn divides(self, index: usize, left: Self, right: Self) -> bool;

    /// Cut into two parts, if possible at the given index (which is never above the length).
    /// The lengths of both parts add up to the length of the whole, and cutting a
    /// non-empty finite object at a positive index leaves strictly less on the right.
    fn divide_at(self, index: usize) -> (r: (Self, Self))
        requires
            self.valid(),
            self.length() matches Some(n) ==> index <= n,
        ensures
            r.0.valid(),
            r.1.valid(),
            conserves(self.length(), r.0.length(), r.1.length()),
            self.divides(index, r.0, r.1),
            self.length() is Some && self.length()->0 > 0 && index > 0 ==> r.1.length() is Some
                && r.1.length()->0 < self.length()->0,
    ;

    /// Cut into two parts, by default at the middle of the length.
    fn divide(self) -> (r: (Self, Self))
        requires
            self.valid(),
            self.length() is Some,
        ensures
            r.0.valid(),
            r.1.valid(),
            conserves(self.length(), r.0.length(), r.1.length()),
            self.divides((self.length()->0 / 2) as usize, r.0, r.1),
            self.length()->0 > 1 ==> r.1.length() is Some && r.1.length()->0 < self.length()->0,
    {
        let mid = match self.base_length() {
            Some(n) => n / 2,
            None => 0,
        };
        self.divide_at(mid)
    }
}

/// `b` is a block taken from `x`, leaving `rest`: either all of `x` (nothing
/// is left), or the left part of a cut whose right part is left.
pub open spec fn block_taken<I: Divisible>(x: I, b: I, rest: Option<I>) -> bool {
    ||| rest is None && b == x
    ||| exists|i: usize, r: I|
        rest == Some(r) && conserves(x.length(), b.length(), r.length()) && #[trigger] x.divides(i, b, r)
}

/// Index at which a block of the given size is cut from an input of the given
/// length: the size itself, but never more than a finite length.
pub open spec fn block_cut(length: Option<nat>, size: usize) -> usize {
    match length {
        Some(n) => if n < size { n as usize } else { size },
        None => size,
    }
}

/// Taking a block from `x`, when the sizes gave `s`, gives the block `r` and
/// leaves `rest`: while sizes last, the left part of a cut of `x` at the next
/// size (at most the length), the right part being left; once they run out,
/// all of `x`, nothing being left.
pub open spec fn next_block_of<I: Divisible>(x: I, s: Option<usize>, r: Option<I>, rest: Option<I>) -> bool {
    match s {
        Some(size) => exists|b: I, right: I|
            r == Some(b) && rest == Some(right) && #[trigger] x.divides(block_cut(x.length(), size), b, right),
        None => r == Some(x) && rest is None,
    }
}

/// A sequential iterator on blocks of `input`, of the given sizes.
pub fn blocks<I: Divisible, S: Iterator<Item = usize>>(input: I, sizes: S) -> (r: BlocksIterator<I, S>)
    ensures
        r.remaining_input() == Some(input),
        r.block_sizes() == sizes,
{
    BlocksIterator { sizes, remaining: Some(input) }
}

/// Iterator on some `Divisible` input by blocks.
pub struct BlocksIterator<I: Divisible, S: Iterator<Item = usize>> {
    /// sizes of all the remaining blocks
    sizes: S,
    /// remaining input
    remaining: Option<I>,
}

impl<I: Divisible, S: Iterator<Item = usize>> BlocksIterator<I, S> {
    /// What is left of the input.
    pub closed spec fn remaining_input(&self) -> Option<I> {
        self.remaining
    }

    /// Sizes of the remaining blocks.
    pub closed spec fn block_sizes(&self) -> S {
        self.sizes
    }

    /// The next block: nothing once the input is exhausted (or of length 0);
    /// a block of the next size (at most what remains) while sizes last;
    /// everything that remains when they run out.
    pub fn next(&mut self) -> (r: Option<I>)
        requires
            old(self).remaining_input() matches Some(x) ==> x.valid(),
        ensures
            final(self).remaining_input() matches Some(x) ==> x.valid(),
            old(self).remaining_input() is None ==> r is None,
            old(self).remaining_input() matches Some(x) && x.length() == Some(0nat) ==> r is None,
            r is None ==> final(self).remaining_input() == old(self).remaining_input()
                && final(self).block_sizes() == old(self).block_sizes(),
            old(self).remaining_input() is Some && old(self).remaining_input()->0.length() != Some(0nat)
                ==> exists|
                a: &mut S,
                s: Option<usize>,
            |
                *a == old(self).block_sizes() && *final(a) == final(self).block_sizes()
                    && #[trigger] call_ensures(S::next, (a,), s)
                    && next_block_of(old(self).remaining_input()->0, s, r, final(self).remaining_input()),
            r matches Some(b) ==> {
                &&& b.valid()
                &&& old(self).remaining_input() matches Some(x)
                &&& x.length() != Some(0nat)
                &&& block_taken(x, b, final(self).remaining_input())
            },
    {
        let remaining_length = match &self.remaining {
            None => {
                return None;
            },
            Some(input) => input.base_length(),
        };
        if let Some(length) = remaining_length {
            if length == 0 {
                return None;
            }
        }
        let current_size = self.sizes.next();
        if let Some(size) = current_size {
            let remaining_input = self.remaining.take().unwrap();
            let checked_size = match remaining_length {
                Some(r) => if r < size { r } else { size },
                None => size,
            };
            let ghost whole = remaining_input;
            let (left, right) = remaining_input.divide_at(checked_size);
            self.remaining = Some(right);
            assert(block_taken(whole, left, self.remaining_input()));
            assert(block_cut(whole.length(), size) == checked_size);
            assert(next_block_of(whole, current_size, Some(left), self.remaining_input()));
            Some(left)
        } else {
            // no sizes left, return everything that is left to process
            self.remaining.take()
        }
    }
}

/// The items of `blocks`, one block after the other.
pub open spec fn blocks_items<I: AdaptiveIterator>(blocks: Seq<I>) -> Seq<I::Item>
    decreases blocks.len(),
{
    if blocks.len() == 0 {
        Seq::empty()
    } else {
        blocks_items(blocks.drop_last()) + blocks.last().items()
    }
}

/// The items of what may remain: none once nothing does.
pub open spec fn rest_items<I: AdaptiveIterator>(rest: Option<I>) -> Seq<I::Item> {
    match rest {
        Some(x) => x.items(),
        None => Seq::empty(),
    }
}

/// Blocks taken one after the other from `input` lose and repeat nothing: when
/// cutting keeps the items in order (the left part's items, then the right
/// part's), the items of the blocks taken so far, then those of what remains,
/// are the items of the input.
pub proof fn lemma_blocks_concatenate<I: AdaptiveIterator>(input: I, blocks: Seq<I>, rests: Seq<Option<I>>)
    requires
        rests.len() == blocks.len() + 1,
        rests[0] == Some(input),
        forall|k: int|
            #![trigger blocks[k]]
            #![trigger rests[k]]
            0 <= k < blocks.len() ==> rests[k] is Some && block_taken(rests[k]->0, blocks[k], rests[k + 1]),
        forall|x: I, i: usize, l: I, r: I| #[trigger] x.divides(i, l, r) ==> x.items() == l.items() + r.items(),
    ensures
        blocks_items(blocks) + rest_items(rests.last()) == input.items(),
    decreases blocks.len(),
{
    if blocks.len() == 0 {
        assert(blocks_items(blocks) + rest_items(rests.last()) =~= input.items());
    } else {
        let n = blocks.len() - 1;
        assert forall|k: int|
            #![trigger blocks.drop_last()[k]]
            #![trigger rests.drop_last()[k]]
            0 <= k < n implies rests.drop_last()[k] is Some && block_taken(
            rests.drop_last()[k]->0,
            blocks.drop_last()[k],
            rests.drop_last()[k + 1],
        ) by {
            assert(rests.drop_last()[k] == rests[k]);
            assert(rests.drop_last()[k + 1] == rests[k + 1]);
            assert(blocks.drop_last()[k] == blocks[k]);
        }
        lemma_blocks_concatenate(input, blocks.drop_last(), rests.drop_last());
        assert(blocks[n] == blocks[n]);
        let x = rests[n]->0;
        assert(rests.drop_last().last() == rests[n]);
        if rests[n + 1] is None {
            assert(blocks[n] == x);
        } else {
            let (i, r) = choose|i: usize, r: I|
                rests[n + 1] == Some(r) && conserves(x.length(), blocks[n].length(), r.length()) && #[trigger] x.divides(
                    i,
                    blocks[n],
                    r,
                );
            assert(x.items() == blocks[n].items() + r.items());
        }
        assert(blocks_items(blocks) == blocks_items(blocks.drop_last()) + blocks[n].items());
        assert(blocks_items(blocks) + rest_items(rests.last()) =~= input.items());
    }
}

/// Options are divisible: `Some` holds one unit of work; cutting keeps it on the left.
impl<T> Divisible for Option<T> {
    type Power = IndexedPower;

    open spec fn length(&self) -> Option<nat> {
        if self is Some {
            Some(1)
        } else {
            Some(0)
        }
    }

    open spec fn valid(&self) -> bool {
        true
    }

    open spec fn divides(self, index: usize, left: Self, right: Self) -> bool {
        left == self && right is None
    }

    fn base_length(&self) -> (r: Option<usize>) {
        if self.is_some() {
            Some(1)
        } else {
            Some(0)
        }
    }

    fn divide_at(self, _index: usize) -> (r: (Self, Self)) {
        (self, None)
    }
}

/// Ranges are divisible: cutting at `index` gives `start..start + index` and the rest.
impl Divisible for Range<usize> {
    type Power = IndexedPower;

    open spec fn divides(self, index: usize, left: Self, right: Self) -> bool {
        &&& left.start == self.start
        &&& left.end == self.start + index
        &&& right.start == self.start + index
        &&& right.end == self.end
    }

    open spec fn length(&self) -> Option<nat> {
        Some((self.end - self.start) as nat)
    }

    open spec fn valid(&self) -> bool {
        self.start <= self.end
    }

    fn base_length(&self) -> (r: Option<usize>) {
        Some(self.end - self.start)
    }

    fn divide_at(self, index: usize) -> (r: (Self, Self)) {
        let mid = self.start + index;
        (self.start..mid, mid..self.end)
    }
}

/// Ranges are divisible: cutting at `index` gives `start..start + index` and the rest.
impl Divisible for Range<u64> {
    type Power = IndexedPower;

    open spec fn divides(self, index: usize, left: Self, right: Self) -> bool {
        &&& left.start == self.start
        &&& left.end == self.start + index
        &&& right.start == self.start + index
        &&& right.end == self.end
    }

    open spec fn length(&self) -> Option<nat> {
        Some((self.end - self.start) as nat)
    }

    open spec fn valid(&self) -> bool {
        self.start <= self.end && self.end - self.start <= usize::MAX
    }

    fn base_length(&self) -> (r: Option<usize>) {
        Some((self.end - self.start) as usize)
    }

    fn divide_at(self, index: usize) -> (r: (Self, Self)) {
        let mid = self.start + index as u64;
        (self.start..mid, mid..self.end)
    }
}

/// Ranges are divisible: cutting at `index` gives `start..start + index` and the rest.
impl Divisible for Range<u32> {
    type Power = IndexedPower;

    open spec fn divides(self, index: usize, left: Self, right: Self) -> bool {
        &&& left.start == self.start
        &&& left.end == self.start + index
        &&& right.start == self.start + index
        &&& right.end == self.end
    }

    open spec fn length(&self) -> Option<nat> {
        Some((self.end - self.start) as nat)
    }

    open spec fn valid(&self) -> bool {
        self.start <= self.end
    }

    fn base_length(&self) -> (r: Option<usize>) {
        Some((self.end - self.start) as usize)
    }

    fn divide_at(self, index: usize) -> (r: (Self, Self)) {
        let mid = self.start + index as u32;
        (self.start..mid, mid..self.end)
    }
}

/// Dividing a range of `usize` at `index` keeps the order of its numbers: every
/// number of the range is in exactly one part, the left part holds the first
/// `index` of them and each of its numbers comes before each number of the right part.
pub proof fn lemma_range_usize_divides(whole: Range<usize>, index: usize, left: Range<usize>, right: Range<usize>)
    requires
        whole.valid(),
        index <= whole.length()->0,
        whole.divides(index, left, right),
    ensures
        forall|x: int|
            #[trigger] in_range(whole.start as int, whole.end as int, x) <==> (in_range(
                left.start as int,
                left.end as int,
                x,
            ) || in_range(right.start as int, right.end as int, x)),
        forall|x: int, y: int|
            #[trigger] in_range(left.start as int, left.end as int, x) && #[trigger] in_range(
                right.start as int,
                right.end as int,
                y,
            ) ==> x < y,
        left.end - left.start == index,
        left.start == whole.start,
{
}

/// Dividing a range of `u64` at `index` keeps the order of its numbers: every
/// number of the range is in exactly one part, the left part holds the first
/// `index` of them and each of its numbers comes before each number of the right part.
pub proof fn lemma_range_u64_divides(whole: Range<u64>, index: usize, left: Range<u64>, right: Range<u64>)
    requires
        whole.valid(),
        index <= whole.length()->0,
        whole.divides(index, left, right),
    ensures
        forall|x: int|
            #[trigger] in_range(whole.start as int, whole.end as int, x) <==> (in_range(
                left.start as int,
                left.end as int,
                x,
            ) || in_range(right.start as int, right.end as int, x)),
        forall|x: int, y: int|
            #[trigger] in_range(left.start as int, left.end as int, x) && #[trigger] in_range(
                right.start as int,
                right.end as int,
                y,
            ) ==> x < y,
        left.end - left.start == index,
        left.start == whole.start,
{
}

/// Dividing a range of `u32` at `index` keeps the order of its numbers: every
/// number of the range is in exactly one part, the left part holds the first
/// `index` of them and each of its numbers comes before each number of the right part.
pub proof fn lemma_range_u32_divides(whole: Range<u32>, index: usize, left: Range<u32>, right: Range<u32>)
    requires
        whole.valid(),
        index <= whole.length()->0,
        whole.divides(index, left, right),
    ensures
        forall|x: int|
            #[trigger] in_range(whole.start as int, whole.end as int, x) <==> (in_range(
                left.start as int,
                left.end as int,
                x,
            ) || in_range(right.start as int, right.end as int, x)),
        forall|x: int, y: int|
            #[trigger] in_range(left.start as int, left.end as int, x) && #[trigger] in_range(
                right.start as int,
                right.end as int,
                y,
            ) ==> x < y,
        left.end - left.start == index,
        left.start == whole.start,
{
}

/// Read-only slices are divisible: cutting at `index` (clamped to the length)
/// gives the two subslices.
impl<'a, T: 'a> Divisible for &'a [T] {
    type Power = IndexedPower;

    open spec fn divides(self, index: usize, left: Self, right: Self) -> bool {
        &&& left@ + right@ == self@
        &&& left@.len() == (if index <= self@.len() { index as nat } else { self@.len() })
    }

    open spec fn length(&self) -> Option<nat> {
        Some(self@.len())
    }

    open spec fn valid(&self) -> bool {
        true
    }

    fn base_length(&self) -> (r: Option<usize>) {
        Some(self.len())
    }

    fn divide_at(self, index: usize) -> (r: (Self, Self)) {
        let n = self.len();
        let i = if index < n { index } else { n };
        let r = (vstd::slice::slice_subrange(self, 0, i), vstd::slice::slice_subrange(self, i, n));
        assert(r.0@ + r.1@ =~= self@);
        r
    }
}

/// Mutable slices are divisible: cutting at `index` (clamped to the length)
/// gives the two mutable subslices.
impl<'a, T: 'a> Divisible for &'a mut [T] {
    type Power = IndexedPower;

    open spec fn length(&self) -> Option<nat> {
        Some(self@.len())
    }

    open spec fn valid(&self) -> bool {
        true
    }

    open spec fn divides(self, index: usize, left: Self, right: Self) -> bool {
        &&& left@ + right@ == self@
        &&& left@.len() == (if index <= self@.len() { index as nat } else { self@.len() })
    }

    fn base_length(&self) -> (r: Option<usize>) {
        Some(self.len())
    }

    fn divide_at(self, index: usize) -> (r: (Self, Self)) {
        let n = self.len();
        let i = if index < n { index } else { n };
        let ghost whole = self@;
        let (left, right) = split_slice_at_mut(self, i);
        assert(left@ + right@ =~= whole);
        (left, right)
    }
}


/// Dividing a shared slice at `index` keeps the order of its elements: the
/// left part holds its first `index` elements (all of them when `index` is
/// beyond its length), the right part the others.
pub proof fn lemma_shared_slice_divides<'a, T>(whole: &'a [T], index: usize, left: &'a [T], right: &'a [T])
    requires
        whole.divides(index, left, right),
    ensures
        left@ == whole@.subrange(0, left@.len() as int),
        right@ == whole@.subrange(left@.len() as int, whole@.len() as int),
        index <= whole@.len() ==> left@.len() == index,
{
    assert(left@ =~= whole@.subrange(0, left@.len() as int));
    assert(right@ =~= whole@.subrange(left@.len() as int, whole@.len() as int));
}

} // verus!
