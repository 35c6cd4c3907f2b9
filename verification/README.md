# rayon_adaptive

Adaptive parallelism by divide and conquer, verified with Verus.

Inputs that can be cut into independent pieces implement `Divisible`. A
`Folder` says how to fold such an input; a scheduling `Policy` says when to
cut. Pieces are cut while they are large, folded sequentially by blocks whose
sizes grow, and the outputs of both sides of each cut are combined; both sides
run in parallel through rayon's `join`.

## Layout

- `src/divisibility.rs`: the `Divisible` trait (with the relation between a
  whole and its two parts), block iteration, and the power markers.
- `src/policy.rs`: scheduling policies, thresholds and block sizes.
- `src/folders/`: the `Folder` trait and the folders (`Fold`, `CuttingFold`,
  `WorkFold`, `AdaptiveIteratorFold`, `MapFolder`).
- `src/scheduling.rs`: the schedulers and their specifications: division
  trees, runs by blocks, folds with help, and the law that a schedule's result
  does not depend on the cuts when folding is a homomorphism.
- `src/activated_input.rs`: an input with its folder and policy, ready to be
  reduced, iterated on by blocks, or folded with help.
- `src/help_work.rs`: folding sequentially while helpers work on the rest.
- `src/base/`, `src/cloned.rs`, `src/even_levels.rs`, `src/filter.rs`,
  `src/chunks.rs`: parallel iterators and adaptors.
- `src/algorithms/`: merge, merge sorts, prefix computations, filtering,
  searching, and infix expression evaluation.
- `src/parallel.rs`: the calls into rayon's thread pool.
- `tests/`: tests of the library on concrete values.
- `app/main.rs`: demonstrations and timings.

## Trusted code

Everything in `src/` is verified except the functions marked
`#[verifier::external_body]`: the calls into rayon (`join`,
`current_num_threads`, a parallel split, a parallel product and a parallel
fold used by two of the infix solvers), std's slice sort and mutable slice split, the small vector of products backed by
smallvec, and rand's random numbers. Each states in its doc comment what its
contract claims of the outside code.
