//! Failures surfaced while building or running a simulation scenario.

use vstd::prelude::*;

verus! {

/// A structural failure in scenario construction or in a propagation run.
/// None of these is transient: each marks a caller error, and the affected
/// operation leaves the scenario unchanged.
#[derive(Clone, Copy, Debug, PartialEq, Eq, Structural)]
pub enum SimulationError {
    /// An operation referenced a node id that the scenario does not hold.
    UnknownNode,
    /// `add_node` was called with an id the scenario already holds.
    DuplicateNode,
}

} // verus!
