//! Trap sets: the greatest subset of a set that no step leaves, or that no step enters.

pub mod step_operators;

use crate::reachability::ReachabilityComputation;
use crate::trimming::IterativeSubtraction;
pub use step_operators::{HasPredecessorSaturation, HasSuccessorSaturation};
use vstd::prelude::*;

verus! {

/// The forward trap set, by saturation: the greatest forward-closed subset of the initial set.
pub type ForwardTrap = ReachabilityComputation<IterativeSubtraction<HasSuccessorSaturation>>;

/// The backward trap set, by saturation: the greatest backward-closed subset of the initial set.
pub type BackwardTrap = ReachabilityComputation<IterativeSubtraction<HasPredecessorSaturation>>;

} // verus!
