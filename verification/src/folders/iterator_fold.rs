//! A folder which folds the items of the input one by one.
use vstd::prelude::*;
use core::marker::PhantomData;
use core::ops::Range;
use crate::divisibility::Divisible;
use crate::folders::Folder;

verus! {

/// A divisible input whose pieces hold a sequence of items.
pub trait AdaptiveIterator: Divisible {
    /// What is iterated on.
    type Item;

    /// The items held, in order.
    spec fn items(&self) -> Seq<Self::Item>;

    /// The items held, in order.
    fn into_items(self) -> (r: Vec<Self::Item>)
        requires
            self.valid(),
            self.length() is Some,
        ensures
            r@ == self.items(),
    ;

    /// Cutting keeps the items in order: those of the left piece, then those of
    /// the right one, are those of the whole.
    proof fn lemma_divides_items(self, index: usize, left: Self, right: Self)
        requires
            self.valid(),
            self.length() matches Some(n) ==> index <= n,
            self.divides(index, left, right),
        ensures
            self.items() == left.items() + right.items(),
    ;

    /// A finite input holds as many items as its length.
    proof fn lemma_items_length(self)
        requires
            self.valid(),
        ensures
            self.length() matches Some(n) ==> self.items().len() == n,
    ;
}

/// A range of `usize` holds the integers from its start to its end.
impl AdaptiveIterator for Range<usize> {
    type Item = usize;

    open spec fn items(&self) -> Seq<usize> {
        Seq::new((self.end - self.start) as nat, |k: int| (self.start + k) as usize)
    }

    proof fn lemma_divides_items(self, index: usize, left: Self, right: Self) {
        assert(self.items() =~= left.items() + right.items());
    }

    proof fn lemma_items_length(self) {
    }

    fn into_items(self) -> (r: Vec<usize>) {
        let mut v: Vec<usize> = Vec::new();
        let mut x = self.start;
        while x < self.end
            invariant
                self.start <= x <= self.end,
                v@ =~= Seq::new((x - self.start) as nat, |k: int| (self.start + k) as usize),
            decreases self.end - x,
        {
            v.push(x);
            x = x + 1;
        }
        v
    }
}

/// A slice holds its elements.
impl<'a, T: Copy> AdaptiveIterator for &'a [T] {
    type Item = T;

    open spec fn items(&self) -> Seq<T> {
        self@
    }

    proof fn lemma_divides_items(self, index: usize, left: Self, right: Self) {
    }

    proof fn lemma_items_length(self) {
    }

    fn into_items(self) -> (r: Vec<T>) {
        let mut v: Vec<T> = Vec::new();
        let mut k: usize = 0;
        while k < self.len()
            invariant
                k <= self@.len(),
                v@ =~= self@.subrange(0, k as int),
            decreases self@.len() - k,
        {
            v.push(self[k]);
            k = k + 1;
        }
        v
    }
}

/// `out` is what folding `items` one by one with `f`, starting from `io`, may give.
pub open spec fn folded_over<IO, T, F: Fn(IO, T) -> IO>(f: F, io: IO, items: Seq<T>, out: IO) -> bool {
    exists|accs: Seq<IO>|
        {
            &&& accs.len() == items.len() + 1
            &&& accs[0] == io
            &&& accs.last() == out
            &&& forall|k: int| 0 <= k < items.len() ==> #[trigger] f.ensures((accs[k], items[k]), accs[k + 1])
        }
}

/// Fold by cutting the input at the limit and folding the items of the left
/// piece one by one with `fold_op`.
#[verifier::reject_recursive_types(I)]
#[verifier::reject_recursive_types(IO)]
pub struct AdaptiveIteratorFold<I: AdaptiveIterator, IO, ID: Fn() -> IO, F: Fn(IO, I::Item) -> IO> {
    identity_op: ID,
    fold_op: F,
    phantom: PhantomData<I>,
}

impl<I: AdaptiveIterator, IO, ID: Fn() -> IO, F: Fn(IO, I::Item) -> IO> AdaptiveIteratorFold<
    I,
    IO,
    ID,
    F,
> {
    /// Produces the starting value.
    pub closed spec fn identity_function(&self) -> ID {
        self.identity_op
    }

    /// Folds one item.
    pub closed spec fn fold_function(&self) -> F {
        self.fold_op
    }

    /// Fold items with `fold_op`, starting from what `identity_op` gives.
    pub fn new(identity_op: ID, fold_op: F) -> (r: Self)
        ensures
            r.identity_function() == identity_op,
            r.fold_function() == fold_op,
    {
        AdaptiveIteratorFold { identity_op, fold_op, phantom: PhantomData }
    }
}

impl<I: AdaptiveIterator, IO, ID: Fn() -> IO, F: Fn(IO, I::Item) -> IO> Folder for AdaptiveIteratorFold<
    I,
    IO,
    ID,
    F,
> {
    type Input = I;
    type IntermediateOutput = IO;
    type Output = IO;

    /// The identity can be called and `fold_op` accepts every item.
    open spec fn ready(&self) -> bool {
        &&& self.identity_function().requires(())
        &&& forall|io: IO, x: I::Item| #[trigger] self.fold_function().requires((io, x))
    }

    open spec fn starts_with(&self, io: IO) -> bool {
        self.identity_function().ensures((), io)
    }

    /// The input is cut at the limit; the items of the left piece are folded in order.
    open spec fn folds(&self, io: IO, i: I, limit: usize, r: (IO, I)) -> bool {
        exists|todo: I| #[trigger]
            i.divides(limit, todo, r.1) && folded_over(self.fold_function(), io, todo.items(), r.0)
    }

    open spec fn outputs(&self, io: IO, i: I, o: IO) -> bool {
        o == io
    }

    fn identity(&self) -> (r: IO) {
        (self.identity_op)()
    }

    fn fold(&self, io: IO, i: I, limit: usize) -> (r: (IO, I)) {
        let ghost whole = i;
        let (todo, remaining) = i.divide_at(limit);
        let ghost todo_items = todo.items();
        let items = todo.into_items();
        let mut acc = io;
        let ghost mut accs: Seq<IO> = seq![acc];
        for x in it: items
            invariant
                self.ready(),
                it.seq() == todo_items,
                accs.len() == it.index() + 1,
                accs[0] == io,
                accs.last() == acc,
                forall|j: int|
                    0 <= j < it.index() ==> #[trigger] self.fold_function().ensures(
                        (accs[j], todo_items[j]),
                        accs[j + 1],
                    ),
        {
            assert(self.fold_function().requires((acc, x)));
            let next = (self.fold_op)(acc, x);
            proof {
                accs = accs.push(next);
            }
            acc = next;
        }
        assert(folded_over(self.fold_function(), io, todo_items, acc));
        assert(whole.divides(limit, todo, remaining));
        (acc, remaining)
    }

    fn to_output(&self, io: IO, _i: I) -> (r: IO) {
        io
    }
}

} // verus!
