use vstd::prelude::*;

verus! {

/// The ways in which building an index can fail.
#[derive(Debug, Clone, Copy, PartialEq, Eq, Structural)]
pub enum HnswError {
    /// Two vectors of the source do not have the same number of coordinates.
    DimensionMismatch,
    /// A node id does not name a node of the graph.
    InvalidNode,
}

} // verus!
