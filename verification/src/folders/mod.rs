//! The `Folder` trait: how an adaptive operation folds its input.
//!
//! A folder takes a `Divisible` input, folds pieces of it onto intermediate
//! outputs and maps these to final outputs, ready for a final reduction.
//! Nothing happens before a scheduler drives it.
use vstd::prelude::*;
use crate::divisibility::Divisible;

pub mod cutting_fold;
pub mod fold;
pub mod iterator_fold;
pub mod map;
pub mod work_fold;

pub use self::cutting_fold::CuttingFold;
pub use self::fold::Fold;
pub use self::iterator_fold::{AdaptiveIterator, AdaptiveIteratorFold};
pub use self::map::MapFolder;
pub use self::work_fold::WorkFold;

verus! {

/// How to fold a divisible input: start from an identity, fold pieces of the
/// input (each fold consumes at least one unit of work), and turn what was
/// accumulated into an output.
pub trait Folder: Sized {
    /// What we fold.
    type Input: Divisible;
    /// What we accumulate while folding.
    type IntermediateOutput;
    /// What a sequential task finally produces.
    type Output;

    /// The operations of the folder accept every argument a scheduler gives them,
    /// and each fold consumes some of the input.
    spec fn ready(&self) -> bool;

    /// `io` is a value the folding can start from.
    spec fn starts_with(&self, io: Self::IntermediateOutput) -> bool;

    /// Folding at most `limit` units of `i` onto `io` gives `r`
    /// (the new intermediate output and what is left of the input).
    spec fn folds(
        &self,
        io: Self::IntermediateOutput,
        i: Self::Input,
        limit: usize,
        r: (Self::IntermediateOutput, Self::Input),
    ) -> bool;

    /// `o` is the output for the accumulated `io` and the remaining input `i`.
    spec fn outputs(&self, io: Self::IntermediateOutput, i: Self::Input, o: Self::Output) -> bool;

    /// The value folding starts from.
    fn identity(&self) -> (r: Self::IntermediateOutput)
        requires
            self.ready(),
        ensures
            self.starts_with(r),
    ;

    /// Fold at most `limit` units of work of `i` onto `io`.
    fn fold(&self, io: Self::IntermediateOutput, i: Self::Input, limit: usize) -> (r: (
        Self::IntermediateOutput,
        Self::Input,
    ))
        requires
            self.ready(),
            i.valid(),
            i.length() is Some,
            0 < limit <= i.length()->0,
        ensures
            self.folds(io, i, limit, r),
            r.1.valid(),
            r.1.length() is Some,
            r.1.length()->0 < i.length()->0,
    ;

    /// Turn what was accumulated into an output.
    fn to_output(&self, io: Self::IntermediateOutput, i: Self::Input) -> (r: Self::Output)
        requires
            self.ready(),
            i.valid(),
        ensures
            self.outputs(io, i, r),
    ;
}

/// Wrap a folder so that its outputs are mapped through `map_op`.
pub fn map<F: Folder, O, M: Fn(F::Output) -> O>(folder: F, map_op: M) -> (r: MapFolder<F, O, M>)
    ensures
        r.inner() == folder,
        r.map_function() == map_op,
{
    MapFolder::new(folder, map_op)
}

} // verus!
