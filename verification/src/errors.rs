use vstd::prelude::*;

verus! {

/// The ways a query or an edge insertion is rejected before any
/// computation starts. All of these are detected up front: no partial
/// residual network is ever built on invalid input.
#[derive(Clone, Copy, Debug, PartialEq, Eq, Structural)]
pub enum MinCutError {
    /// The source or the sink of a query is not a node of the graph.
    InvalidEndpoint,
    /// The source of a query equals its sink, so no cut separates them.
    DegenerateQuery,
    /// A malformed edge: a self-loop, or a capacity so large that the
    /// graph's total capacity can no longer be accounted in 64 bits.
    InvalidCapacity,
}

} // verus!
