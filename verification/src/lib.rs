use vstd::prelude::*;

/// Layer shapes with 16-bit positions, for networks small enough that every
/// position fits an `i16`.
pub mod compact;
pub mod compute;
pub mod distribute;
pub mod flat;
pub mod imaging;
pub mod layers;
pub mod nodes;
pub mod num;
pub mod operations;
pub mod util;

verus! {
} // verus!
