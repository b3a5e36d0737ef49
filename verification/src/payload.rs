use vstd::prelude::*;

verus! {

/// One node's row in a topology assignment: the node and its assigned
/// neighbours.
#[derive(Clone, Debug, PartialEq, Eq)]
pub struct TopologyEntry {
    pub node: String,
    pub neighbours: Vec<String>,
}

/// The closed set of payload variants of the broadcast protocol.
///
/// On the wire each variant is one tagged object (`broadcast`,
/// `broadcast_ok`, `read`, `read_ok`, `topology`, `topology_ok`, `sync`,
/// `sync_ok`); the embedding program owns that encoding.
#[derive(Clone, Debug, PartialEq, Eq)]
pub enum Payload {
    /// Ask the node to accept one value into its broadcast set.
    Broadcast { broadcast_message: i32 },
    BroadcastOk,
    /// Ask the node for a snapshot of its broadcast set.
    Read,
    ReadOk { broadcast_messages: Vec<i32> },
    /// Fix the node's neighbour list from an external assignment.
    Topology { topology: Vec<TopologyEntry> },
    TopologyOk,
    /// Anti-entropy delta: values the sender has that the receiver is not
    /// yet known to have.
    Sync { new_messages: Vec<i32> },
    /// Acknowledgement of a sync, piggybacking the reverse delta: values the
    /// replier has that the original sender is not yet known to have.
    SyncOk { acknowledge_new_messages: Vec<i32> },
}

/// The closed set of payload variants spoken with the external sequential
/// key-value store. Values travel as their already-encoded text form; the
/// store treats them opaquely.
#[derive(Clone, Debug, PartialEq, Eq)]
pub enum KvPayload {
    Read { key: String },
    ReadOk { value: String },
    Write { key: String, value: String },
    WriteOk,
    Cas { key: String, from: String, to: String, create_if_not_exists: bool },
    CasOk,
    /// The store's failure reply: key absent on a read, or a
    /// compare-and-swap that found an unexpected stored value.
    Error,
}

} // verus!
