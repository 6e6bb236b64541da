use vstd::prelude::*;

verus! {

/// A directed edge stored under its source node: the target node id and a
/// non-negative traversal cost in fixed-point units.
#[derive(Debug, Clone, Copy, PartialEq, Eq, Structural)]
pub struct Edge {
    pub to: usize,
    pub cost: u64,
}

} // verus!
