//! Plain message shells used between nodes.

use vstd::prelude::*;

verus! {

/// A node-to-node message as raw bytes; the surrounding transport frames
/// and routes it.
#[derive(Clone, PartialEq, Eq, Debug)]
pub struct NodeMessage(pub Vec<u8>);

impl View for NodeMessage {
    type V = Seq<u8>;

    open spec fn view(&self) -> Seq<u8> {
        self.0@
    }
}

impl NodeMessage {
    /// Wraps the given bytes as a node message.
    pub fn new(bytes: Vec<u8>) -> (r: NodeMessage)
        ensures
            r@ == bytes@,
    {
        NodeMessage(bytes)
    }
}

/// A query about transfers that one node sends to another.
#[derive(Clone, Copy, PartialEq, Eq, Structural, Debug)]
pub enum NodeTransferQuery {
    /// Replicas starting up ask the other elders for the events of the
    /// existing replicas.
    GetReplicaEvents,
}

} // verus!
