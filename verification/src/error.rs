use vstd::prelude::*;

verus! {

/// Errors a node can report while handling protocol traffic.
///
/// Transport failures (an unreadable line, a write that fails) are fatal and
/// belong to the embedding program; these variants cover the protocol logic
/// itself and the replies of the external key-value collaborator.
#[derive(Clone, Copy, Debug, PartialEq, Eq, Structural)]
pub enum NodeError {
    /// A sync or sync-ok message arrived from a node that is not a
    /// configured neighbour.
    UnknownNeighbour,
    /// A topology assignment carried no entry for this node's own id.
    MissingSelfInTopology,
    /// A reply arrived whose `in_reply_to` matches no outstanding request.
    UnknownCorrelationId,
    /// A reply arrived without an `in_reply_to` field.
    MissingInReplyTo,
    /// The key-value store answered with a variant the request does not call
    /// for.
    UnexpectedReplyType,
    /// The key-value store holds no value for the requested key.
    KeyNotFound,
    /// A compare-and-swap found a stored value different from the expected
    /// one.
    CasConflict,
}

impl NodeError {
    /// A short human-readable description, for the embedding program's
    /// error reports.
    pub fn describe(&self) -> (r: &'static str)
        ensures
            r@.len() > 0,
    {
        proof {
            reveal_strlit("unknown neighbour");
            reveal_strlit("topology is missing this node's own entry");
            reveal_strlit("no outstanding request matches this reply");
            reveal_strlit("reply is missing the in_reply_to field");
            reveal_strlit("unexpected reply type from the key-value store");
            reveal_strlit("key not found in the key-value store");
            reveal_strlit("compare-and-swap conflict in the key-value store");
        }
        match self {
            NodeError::UnknownNeighbour => "unknown neighbour",
            NodeError::MissingSelfInTopology => "topology is missing this node's own entry",
            NodeError::UnknownCorrelationId => "no outstanding request matches this reply",
            NodeError::MissingInReplyTo => "reply is missing the in_reply_to field",
            NodeError::UnexpectedReplyType => "unexpected reply type from the key-value store",
            NodeError::KeyNotFound => "key not found in the key-value store",
            NodeError::CasConflict => "compare-and-swap conflict in the key-value store",
        }
    }
}

} // verus!
