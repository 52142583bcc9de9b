//! Constants of the Damerau-Levenshtein comparison of sequences.

use vstd::prelude::*;

verus! {

/// The cost of inserting any `Size(_)`.
pub const SIZE_INSERT_COST: usize = 12;

/// A multiplier to the `Gap` value while inserting.
pub const GAP_INSERT_COST_MULTIPLIER: usize = 1;

/// How much a substitution `Size` -> `Size` costs compared to insert plus delete.
pub const SIZE_SUBSTITUTE_COST_DIVIDER: usize = 4;

/// A multiplier to the difference in `Gap` values for a `Gap` -> `Gap` substitution.
pub const GAP_SUBSTITUTE_COST_MULTIPLIER: usize = 3;

/// The cost of swapping two non-equal elements.
pub const SWAP_COST: usize = 3;

} // verus!
