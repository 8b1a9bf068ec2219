//! A search node: one immutable snapshot of a frontier entry.

use vstd::prelude::*;

verus! {

/// One discovered cell on the frontier: its position, the number of steps
/// taken from the start to reach it, the priority score that orders the
/// frontier, and the coordinate of the cell that discovered it. The start
/// node carries itself as its own predecessor.
#[derive(Clone, Copy, Debug)]
pub struct Node {
    pub x: u64,
    pub y: u64,
    pub parent_x: u64,
    pub parent_y: u64,
    pub depth: u64,
    pub cost: u64,
}

impl Node {
    /// The position of this node.
    pub open spec fn pos(&self) -> (u64, u64) {
        (self.x, self.y)
    }
}

/// Two nodes are the same node when they sit at the same position; how they
/// were reached (depth, cost, predecessor) does not distinguish them.
impl PartialEq for Node {
    fn eq(&self, other: &Node) -> (r: bool) {
        self.x == other.x && self.y == other.y
    }
}

impl vstd::std_specs::cmp::PartialEqSpecImpl for Node {
    open spec fn obeys_eq_spec() -> bool {
        true
    }

    open spec fn eq_spec(&self, other: &Node) -> bool {
        self.x == other.x && self.y == other.y
    }
}

} // verus!
