//! Member identity.

use vstd::prelude::*;

verus! {

/// The slot of one member in its fleet.
#[derive(Clone, Copy, Debug, PartialEq, Eq, Structural, Hash)]
pub struct NodeId {
    value: u16,
}

impl NodeId {
    /// The number of this slot.
    pub closed spec fn spec_get(self) -> u16 {
        self.value
    }

    /// The slot with a given number.
    pub closed spec fn of(value: u16) -> NodeId {
        NodeId { value }
    }

    pub fn new(value: u16) -> (node: NodeId)
        ensures
            node.spec_get() == value,
            node == NodeId::of(value),
    {
        NodeId { value }
    }

    #[verifier::when_used_as_spec(spec_get)]
    pub fn get(self) -> (value: u16)
        ensures
            value == self.spec_get(),
            self == NodeId::of(value),
    {
        self.value
    }
}

} // verus!
