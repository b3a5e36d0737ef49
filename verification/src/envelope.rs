use vstd::prelude::*;

verus! {

/// One directed message between two nodes (or between a node and the
/// external key-value collaborator). A reply is built by swapping `src` and
/// `dest`.
#[derive(Clone, Debug, PartialEq, Eq)]
pub struct Message<P> {
    pub src: String,
    pub dest: String,
    pub body: MessageBody<P>,
}

/// The body of a message: optional correlation ids plus the
/// protocol-specific payload.
///
/// `message_id` is assigned by the sender and strictly increases across that
/// sender's own outgoing messages. `in_reply_to`, when present, equals the
/// `message_id` of the message being answered.
#[derive(Clone, Debug, PartialEq, Eq)]
pub struct MessageBody<P> {
    pub message_id: Option<i32>,
    pub in_reply_to: Option<i32>,
    pub payload: P,
}

/// What it means for `reply` to answer `message`: `src` and `dest` swapped,
/// `in_reply_to` equal to the original's `message_id`, and the reply's own
/// `message_id` one greater than the original's `in_reply_to` when that is
/// present.
pub open spec fn is_reply_to<P2, P>(reply: Message<P2>, message: Message<P>) -> bool {
    &&& reply.src == message.dest
    &&& reply.dest == message.src
    &&& reply.body.in_reply_to == message.body.message_id
    &&& reply.body.message_id == (match message.body.in_reply_to {
        Some(id) => Some((id + 1) as i32),
        None => None::<i32>,
    })
}

impl<P> Message<P> {
    /// Build a fresh outgoing message carrying `payload`, with no
    /// correlation ids set.
    pub fn new(src: String, dest: String, payload: P) -> (m: Message<P>)
        ensures
            m.src == src,
            m.dest == dest,
            m.body.message_id is None,
            m.body.in_reply_to is None,
            m.body.payload == payload,
    {
        Message {
            src,
            dest,
            body: MessageBody { message_id: None, in_reply_to: None, payload },
        }
    }

    /// Turn a received message into its reply: `src` and `dest` swap,
    /// `in_reply_to` takes the original's `message_id`, and the reply's own
    /// `message_id` is one greater than the original's `in_reply_to` when
    /// that is present (mirroring the sender's numbering so chained replies
    /// stay addressable), else absent.
    pub fn into_reply<P2>(self, payload: P2) -> (reply: Message<P2>)
        requires
            self.body.in_reply_to matches Some(id) ==> id < i32::MAX,
        ensures
            reply.src == self.dest,
            reply.dest == self.src,
            reply.body.in_reply_to == self.body.message_id,
            reply.body.message_id == (match self.body.in_reply_to {
                Some(id) => Some((id + 1) as i32),
                None => None::<i32>,
            }),
            reply.body.payload == payload,
    {
        let message_id = match self.body.in_reply_to {
            Some(id) => Some(id + 1),
            None => None,
        };
        Message {
            src: self.dest,
            dest: self.src,
            body: MessageBody {
                message_id,
                in_reply_to: self.body.message_id,
                payload,
            },
        }
    }

    /// Split a message into its bare envelope and its payload, preserving
    /// `src`, `dest` and both correlation ids, so that generic logging and
    /// correlation code need not know the payload's variant.
    pub fn take_payload(self) -> (r: (Message<()>, P))
        ensures
            r.0.src == self.src,
            r.0.dest == self.dest,
            r.0.body.message_id == self.body.message_id,
            r.0.body.in_reply_to == self.body.in_reply_to,
            r.1 == self.body.payload,
    {
        (
            Message {
                src: self.src,
                dest: self.dest,
                body: MessageBody {
                    message_id: self.body.message_id,
                    in_reply_to: self.body.in_reply_to,
                    payload: (),
                },
            },
            self.body.payload,
        )
    }
}

/// The handshake request: the first inbound message, assigning this node its
/// id and the full peer list.
#[derive(Clone, Debug, PartialEq, Eq)]
pub struct Init {
    pub node_id: String,
    pub node_ids: Vec<String>,
}

/// The handshake acknowledgement; it carries no data.
#[derive(Clone, Debug, PartialEq, Eq)]
pub struct InitOk {}

/// Answer the handshake request: returns the acknowledgement message to
/// send, addressed back to the requester, together with the assigned node id
/// and peer list.
pub fn handshake_reply(message: Message<Init>) -> (r: (Message<InitOk>, Init))
    requires
        message.body.in_reply_to matches Some(id) ==> id < i32::MAX,
    ensures
        r.0.src == message.dest,
        r.0.dest == message.src,
        r.0.body.in_reply_to == message.body.message_id,
        r.0.body.message_id == (match message.body.in_reply_to {
            Some(id) => Some((id + 1) as i32),
            None => None::<i32>,
        }),
        r.1 == message.body.payload,
{
    let (envelope, payload) = message.take_payload();
    (envelope.into_reply(InitOk {}), payload)
}

} // verus!
