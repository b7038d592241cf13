//! The ways in which a board, a path query or a belief can be unusable.

use vstd::prelude::*;

verus! {

/// What went wrong.
#[derive(Debug, Clone, Copy, PartialEq, Eq, Structural)]
pub enum PursuitError {
    /// The board has no node, too many nodes, a node without a neighbour, or
    /// falls into several parts; or a position names no node of it.
    InvalidTopology,
    /// No walk leads from one node to the other.
    NoPath,
    /// Every place the belief still held possible has been ruled out.
    DegenerateBelief,
    /// There was nothing to choose from.
    EmptyChoiceSet,
}

} // verus!
