use vstd::prelude::*;

verus! {

/// Largest coordinate magnitude a node position may hold. Positions are
/// fixed-point values; the bound keeps squared-distance sums within `u64`.
pub const COORD_LIMIT: i64 = 1_000_000_000;

/// A graph vertex: a stable integer id and a 3D position in fixed-point units.
#[derive(Debug, Clone, Copy)]
pub struct Node {
    pub id: usize,
    pub x: i64,
    pub y: i64,
    pub z: i64,
}

/// The id is a node's identity: two nodes are equal exactly when their ids
/// match, whatever their positions.
impl PartialEq for Node {
    fn eq(&self, other: &Node) -> (r: bool) {
        self.id == other.id
    }
}

impl vstd::std_specs::cmp::PartialEqSpecImpl for Node {
    open spec fn obeys_eq_spec() -> bool {
        true
    }

    open spec fn eq_spec(&self, other: &Node) -> bool {
        self.id == other.id
    }
}

impl Eq for Node {

}

impl Node {
    /// Every coordinate lies within the fixed-point range.
    pub open spec fn in_range(self) -> bool {
        &&& -COORD_LIMIT <= self.x <= COORD_LIMIT
        &&& -COORD_LIMIT <= self.y <= COORD_LIMIT
        &&& -COORD_LIMIT <= self.z <= COORD_LIMIT
    }

    /// The node's position as a coordinate triple.
    pub open spec fn pos_spec(self) -> (i64, i64, i64) {
        (self.x, self.y, self.z)
    }

    pub fn new(id: usize, x: i64, y: i64, z: i64) -> (n: Node)
        ensures
            n == (Node { id, x, y, z }),
    {
        Node { id, x, y, z }
    }

    /// The node's position as a coordinate triple.
    pub fn pos(&self) -> (p: (i64, i64, i64))
        ensures
            p == self.pos_spec(),
    {
        (self.x, self.y, self.z)
    }
}

} // verus!
