//! Adaptive parallelism by divide and conquer.
//!
//! Inputs that can be cut into independent pieces (`Divisible`) are folded by
//! folders (`Folder`) under a scheduling policy: pieces are cut while they are
//! large, folded sequentially by blocks, and their outputs combined. On top of
//! this stand parallel iterators (ranges, slices, repetitions, successors,
//! skipping iterators and their adaptors) and algorithms: merge, merge sort,
//! prefix computation, filtering, searching and infix evaluation.
pub mod activated_input;
pub mod algorithms;
pub mod base;
pub mod boolean_types;
pub mod chunks;
pub mod cloned;
pub mod divisibility;
pub mod even_levels;
pub mod filter;
pub mod folders;
pub mod help_work;
pub mod parallel;
pub mod policy;
pub mod scheduling;
