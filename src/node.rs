use vstd::prelude::*;

verus! {

/// Index of a node inside a node array; the root is always index zero.
pub struct NodeId(pub u32);

impl NodeId {
    /// The root node.
    pub fn root() -> (r: Self)
        ensures
            r.0 == 0,
    {
        NodeId(0)
    }

    /// The node at index `id`.
    pub fn new(id: u32) -> (r: Self)
        ensures
            r.0 == id,
    {
        NodeId(id)
    }
}

} // verus!
