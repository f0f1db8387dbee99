//! Directed, weighted edges between node keys.

use vstd::prelude::*;

verus! {

/// Largest magnitude an edge cost may have.  Keeping every cost inside
/// `[-MAX_COST, MAX_COST]` lets path totals be accumulated in an `i64`
/// without overflow for any path the engine can build.
pub const MAX_COST: i64 = 0x4000_0000;

/// Largest number of nodes a graph may hold, chosen so that
/// `(MAX_NODES + 2) * MAX_COST` still fits in an `i64`.
pub const MAX_NODES: usize = 0x4000_0000;

/// A directed arc from node key `a` to node key `b` with cost `h`.
/// `id` is a per-call sequential identifier that disambiguates parallel
/// edges; it plays no role in an edge's cost-relevant identity.
#[derive(Clone, Copy, PartialEq, Eq, Structural, Hash, Debug)]
pub struct Edge {
    pub id: usize,
    pub a: u64,
    pub b: u64,
    pub h: i64,
}

impl Edge {
    /// Builds the edge with exactly the given fields.
    pub fn new(id: usize, a: u64, b: u64, h: i64) -> (e: Edge)
        ensures
            e == (Edge { id, a, b, h }),
    {
        Edge { id, a, b, h }
    }
}

} // verus!
