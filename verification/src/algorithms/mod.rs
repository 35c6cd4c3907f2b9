//! Algorithms built on divisible inputs.
pub mod filter_collect;
pub mod find_first;
pub mod fusion;
pub mod infix;
pub mod merge;
pub mod prefix;
pub mod sort;
