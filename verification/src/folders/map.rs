//! MapFolder each output of a folder to something else.
use vstd::prelude::*;
use core::marker::PhantomData;
use crate::folders::Folder;

verus! {

/// A folder whose outputs go through `map_op`.
#[verifier::reject_recursive_types(F)]
#[verifier::reject_recursive_types(O)]
pub struct MapFolder<F: Folder, O, M: Fn(F::Output) -> O> {
    inner_folder: F,
    map_op: M,
    phantom: PhantomData<O>,
}

impl<F: Folder, O, M: Fn(F::Output) -> O> MapFolder<F, O, M> {
    /// The folder doing the work.
    pub closed spec fn inner(&self) -> F {
        self.inner_folder
    }

    /// The function applied to each output.
    pub closed spec fn map_function(&self) -> M {
        self.map_op
    }

    /// MapFolder the outputs of `inner_folder` through `map_op`.
    pub fn new(inner_folder: F, map_op: M) -> (r: Self)
        ensures
            r.inner() == inner_folder,
            r.map_function() == map_op,
    {
        MapFolder { inner_folder, map_op, phantom: PhantomData }
    }
}

impl<F: Folder, O, M: Fn(F::Output) -> O> Folder for MapFolder<F, O, M> {
    type Input = F::Input;
    type IntermediateOutput = F::IntermediateOutput;
    type Output = O;

    open spec fn ready(&self) -> bool {
        &&& self.inner().ready()
        &&& forall|o: F::Output| #[trigger] self.map_function().requires((o,))
    }

    open spec fn starts_with(&self, io: Self::IntermediateOutput) -> bool {
        self.inner().starts_with(io)
    }

    open spec fn folds(
        &self,
        io: Self::IntermediateOutput,
        i: Self::Input,
        limit: usize,
        r: (Self::IntermediateOutput, Self::Input),
    ) -> bool {
        self.inner().folds(io, i, limit, r)
    }

    open spec fn outputs(&self, io: Self::IntermediateOutput, i: Self::Input, o: O) -> bool {
        exists|x: F::Output| #[trigger]
            self.inner().outputs(io, i, x) && self.map_function().ensures((x,), o)
    }

    fn identity(&self) -> (r: Self::IntermediateOutput) {
        self.inner_folder.identity()
    }

    fn fold(&self, io: Self::IntermediateOutput, i: Self::Input, limit: usize) -> (r: (
        Self::IntermediateOutput,
        Self::Input,
    )) {
        self.inner_folder.fold(io, i, limit)
    }

    fn to_output(&self, io: Self::IntermediateOutput, i: Self::Input) -> (r: O) {
        let x = self.inner_folder.to_output(io, i);
        assert(self.map_function().requires((x,)));
        (self.map_op)(x)
    }
}

} // verus!
