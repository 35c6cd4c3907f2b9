//! A folder which only works on its input.
use vstd::prelude::*;
use core::marker::PhantomData;
use crate::divisibility::Divisible;
use crate::folders::Folder;

verus! {

/// Work on the input with `work_function(input, limit)`, which advances the
/// input by at most `limit` units; the output is the input once worked on.
#[verifier::reject_recursive_types(I)]
pub struct WorkFold<I: Divisible, WF: Fn(I, usize) -> I> {
    work_function: WF,
    phantom: PhantomData<I>,
}

impl<I: Divisible, WF: Fn(I, usize) -> I> WorkFold<I, WF> {
    /// The work function.
    pub closed spec fn work(&self) -> WF {
        self.work_function
    }

    /// Work with `work_function`.
    pub fn new(work_function: WF) -> (r: Self)
        ensures
            r.work() == work_function,
    {
        WorkFold { work_function, phantom: PhantomData }
    }
}

impl<I: Divisible, WF: Fn(I, usize) -> I> Folder for WorkFold<I, WF> {
    type Input = I;
    type IntermediateOutput = ();
    type Output = I;

    /// The work function accepts every valid finite input with a limit between 1
    /// and its length, and leaves a valid, shorter input.
    open spec fn ready(&self) -> bool {
        &&& forall|i: I, limit: usize|
            i.valid() && i.length() is Some && 0 < limit <= i.length()->0
                ==> #[trigger] self.work().requires((i, limit))
        &&& forall|i: I, limit: usize, r: I|
            i.valid() && i.length() is Some && 0 < limit <= i.length()->0
                && #[trigger] self.work().ensures((i, limit), r) ==> r.valid() && r.length() is Some
                && r.length()->0 < i.length()->0
    }

    open spec fn starts_with(&self, io: ()) -> bool {
        true
    }

    open spec fn folds(&self, io: (), i: I, limit: usize, r: ((), I)) -> bool {
        self.work().ensures((i, limit), r.1)
    }

    open spec fn outputs(&self, io: (), i: I, o: I) -> bool {
        o == i
    }

    fn identity(&self) -> (r: ()) {
        ()
    }

    fn fold(&self, _io: (), i: I, limit: usize) -> (r: ((), I)) {
        assert(self.work().requires((i, limit)));
        ((), (self.work_function)(i, limit))
    }

    fn to_output(&self, _io: (), i: I) -> (r: I) {
        i
    }
}

} // verus!
