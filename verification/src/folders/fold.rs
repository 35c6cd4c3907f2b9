//! A folder given by a fold function on the input itself.
use vstd::prelude::*;
use core::marker::PhantomData;
use crate::divisibility::Divisible;
use crate::folders::Folder;

verus! {

/// Fold with `fold_op(io, input, limit)`, which works on at most `limit`
/// units of the input and returns the new intermediate output and what is
/// left of the input.
#[verifier::reject_recursive_types(I)]
#[verifier::reject_recursive_types(IO)]
pub struct Fold<I: Divisible, IO, ID: Fn() -> IO, FF: Fn(IO, I, usize) -> (IO, I)> {
    identity_op: ID,
    fold_op: FF,
    phantom: PhantomData<I>,
}

impl<I: Divisible, IO, ID: Fn() -> IO, FF: Fn(IO, I, usize) -> (IO, I)> Fold<I, IO, ID, FF> {
    /// Produces the starting value.
    pub closed spec fn identity_function(&self) -> ID {
        self.identity_op
    }

    /// Folds a piece of input.
    pub closed spec fn fold_function(&self) -> FF {
        self.fold_op
    }

    /// Fold with `fold_op`, starting from what `identity_op` gives.
    pub fn new(identity_op: ID, fold_op: FF) -> (r: Self)
        ensures
            r.identity_function() == identity_op,
            r.fold_function() == fold_op,
    {
        Fold { identity_op, fold_op, phantom: PhantomData }
    }
}

impl<I: Divisible, IO, ID: Fn() -> IO, FF: Fn(IO, I, usize) -> (IO, I)> Folder for Fold<
    I,
    IO,
    ID,
    FF,
> {
    type Input = I;
    type IntermediateOutput = IO;
    type Output = IO;

    /// The identity can be called, and `fold_op` accepts every valid finite input
    /// with a limit between 1 and its length, returning a valid input that is shorter.
    open spec fn ready(&self) -> bool {
        &&& self.identity_function().requires(())
        &&& forall|io: IO, i: I, limit: usize|
            i.valid() && i.length() is Some && 0 < limit <= i.length()->0
                ==> #[trigger] self.fold_function().requires((io, i, limit))
        &&& forall|io: IO, i: I, limit: usize, r: (IO, I)|
            i.valid() && i.length() is Some && 0 < limit <= i.length()->0
                && #[trigger] self.fold_function().ensures((io, i, limit), r) ==> r.1.valid()
                && r.1.length() is Some && r.1.length()->0 < i.length()->0
    }

    open spec fn starts_with(&self, io: IO) -> bool {
        self.identity_function().ensures((), io)
    }

    open spec fn folds(&self, io: IO, i: I, limit: usize, r: (IO, I)) -> bool {
        self.fold_function().ensures((io, i, limit), r)
    }

    open spec fn outputs(&self, io: IO, i: I, o: IO) -> bool {
        o == io
    }

    fn identity(&self) -> (r: IO) {
        (self.identity_op)()
    }

    fn fold(&self, io: IO, i: I, limit: usize) -> (r: (IO, I)) {
        assert(self.fold_function().requires((io, i, limit)));
        (self.fold_op)(io, i, limit)
    }

    fn to_output(&self, io: IO, _i: I) -> (r: IO) {
        io
    }
}

} // verus!
