//! The calls into rayon's thread pool that the algorithms make.
use vstd::prelude::*;

verus! {

/// `rayon::join`: runs both closures, potentially in parallel, and returns
/// the pair of their results. Claimed: each result is one that its closure
/// may return (a panic in either closure propagates, so the closures'
/// preconditions must hold).
#[verifier::external_body]
pub(crate) fn join<A, B, RA, RB>(oper_a: A, oper_b: B) -> (r: (RA, RB)) where
    A: FnOnce() -> RA + Send,
    B: FnOnce() -> RB + Send,
    RA: Send,
    RB: Send,

    requires
        oper_a.requires(()),
        oper_b.requires(()),
    ensures
        oper_a.ensures((), r.0),
        oper_b.ensures((), r.1),
{
    rayon::join(oper_a, oper_b)
}

/// `rayon::current_num_threads`: the number of threads of the current pool.
/// It depends on the machine and the pool configuration, so nothing is
/// claimed about the value.
#[verifier::external_body]
pub(crate) fn current_num_threads() -> usize {
    rayon::current_num_threads()
}

} // verus!
