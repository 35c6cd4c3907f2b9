//! A folder which cuts the input and folds whole pieces.
use vstd::prelude::*;
use core::marker::PhantomData;
use crate::divisibility::Divisible;
use crate::folders::Folder;

verus! {

/// Fold by cutting the input at the limit and folding the left piece whole
/// with `fold_op(io, piece)`.
#[verifier::reject_recursive_types(I)]
#[verifier::reject_recursive_types(IO)]
pub struct CuttingFold<I: Divisible, IO, ID: Fn() -> IO, FF: Fn(IO, I) -> IO> {
    identity_op: ID,
    fold_op: FF,
    phantom: PhantomData<I>,
}

impl<I: Divisible, IO, ID: Fn() -> IO, FF: Fn(IO, I) -> IO> CuttingFold<I, IO, ID, FF> {
    /// Produces the starting value.
    pub closed spec fn identity_function(&self) -> ID {
        self.identity_op
    }

    /// Folds a whole piece of input.
    pub closed spec fn fold_function(&self) -> FF {
        self.fold_op
    }

    /// Fold whole pieces with `fold_op`, starting from what `identity_op` gives.
    pub fn new(identity_op: ID, fold_op: FF) -> (r: Self)
        ensures
            r.identity_function() == identity_op,
            r.fold_function() == fold_op,
    {
        CuttingFold { identity_op, fold_op, phantom: PhantomData }
    }
}

impl<I: Divisible, IO, ID: Fn() -> IO, FF: Fn(IO, I) -> IO> Folder for CuttingFold<I, IO, ID, FF> {
    type Input = I;
    type IntermediateOutput = IO;
    type Output = IO;

    /// The identity can be called and `fold_op` accepts every valid piece.
    open spec fn ready(&self) -> bool {
        &&& self.identity_function().requires(())
        &&& forall|io: IO, i: I| i.valid() ==> #[trigger] self.fold_function().requires((io, i))
    }

    open spec fn starts_with(&self, io: IO) -> bool {
        self.identity_function().ensures((), io)
    }

    /// The input is cut at the limit; the left piece is folded, the right one remains.
    open spec fn folds(&self, io: IO, i: I, limit: usize, r: (IO, I)) -> bool {
        exists|todo: I| #[trigger]
            i.divides(limit, todo, r.1) && self.fold_function().ensures((io, todo), r.0)
    }

    open spec fn outputs(&self, io: IO, i: I, o: IO) -> bool {
        o == io
    }

    fn identity(&self) -> (r: IO) {
        (self.identity_op)()
    }

    fn fold(&self, io: IO, i: I, limit: usize) -> (r: (IO, I)) {
        let ghost whole = i;
        let (todo, remaining) = i.divide_at(limit);
        assert(self.fold_function().requires((io, todo)));
        let folded = (self.fold_op)(io, todo);
        assert(whole.divides(limit, todo, remaining));
        (folded, remaining)
    }

    fn to_output(&self, io: IO, _i: I) -> (r: IO) {
        io
    }
}

} // verus!
