use vstd::prelude::*;

verus! {

/// A directed edge: destination node and cost of the hop.
///
/// Costs are whole meters. Sums formed during contraction saturate at
/// `u32::MAX`, which the rest of the pipeline treats as unreachable-far.
#[derive(Clone, Copy, Debug, PartialEq, Eq, Structural)]
pub struct Edge {
    pub node: i64,
    pub cost: u32,
}

impl Edge {
    pub fn new(node: i64, cost: u32) -> (e: Edge)
        ensures
            e.node == node,
            e.cost == cost,
    {
        Edge { node, cost }
    }
}

} // verus!
