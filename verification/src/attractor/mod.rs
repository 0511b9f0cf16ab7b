//! Attractors of the asynchronous state-transition graph: the strongly connected
//! components that no step leaves.

pub mod attractor_config;
pub mod itgr;
pub mod xie_beerel;

use crate::algorithm_trait::{Computation, Generator, Manual};
pub use attractor_config::AttractorConfig;
use biodivine_lib_param_bn::symbolic_async_graph::GraphColoredVertices;
use vstd::prelude::*;
pub use itgr::{ItgrState, ItgrStep};
pub use xie_beerel::{XieBeerelState, XieBeerelStep};

verus! {

/// The enumeration of attractors after Xie and Beerel.
pub type XieBeerelAttractors = Generator<AttractorConfig, XieBeerelState, GraphColoredVertices, XieBeerelStep>;

/// The reduction of the universe by interleaved transition-guided reduction.
pub type InterleavedTransitionGuidedReduction = Computation<AttractorConfig, ItgrState, GraphColoredVertices, ItgrStep, Manual>;

} // verus!
