//! Boolean structs and traits for implementing OR in where clauses:
//! a trait implemented by types that are `TraitTrue` for one of two markers.
use vstd::prelude::*;

verus! {

/// Type-level `true`.
pub struct TrueType;

/// Type-level `false`.
pub struct FalseType;

/// Implemented by type-level `true` only.
pub trait TraitTrue {}

impl TraitTrue for TrueType {}

/// Type-level OR with `B`: the result is `TrueType` if one side is.
pub trait Or<B> {
    type Res;
}

impl<B> Or<B> for TrueType {
    type Res = TrueType;
}

impl<B> Or<B> for FalseType {
    type Res = B;
}

} // verus!
