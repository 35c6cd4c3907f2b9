//! Basic parallel iterators: ranges, slices, repetitions, successors and
//! iterators which know how to skip ahead.
pub mod borrowing;
pub mod either_iter;
pub mod parslices;
pub mod range;
pub mod rangefrom;
pub mod repeat;
pub mod skipable;
pub mod slice;
pub mod successors;
