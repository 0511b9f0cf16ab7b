//! Reachability and trap sets by plain fixed-point iteration over all variables at once.
//! These forms are slow; they are there to compare the other forms with.

pub mod algorithm_naive;

use vstd::prelude::*;

verus! {

/// The plain fixed-point procedures.
pub struct Reachability;

} // verus!
