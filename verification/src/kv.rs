use crate::envelope::Message;
use crate::envelope::MessageBody;
use crate::envelope::is_reply_to;
use crate::error::NodeError;
use crate::payload::KvPayload;
use vstd::prelude::*;

verus! {

/// The fixed pseudo-peer identity the external sequential key-value store
/// answers from.
pub open spec fn kv_store_id_view() -> Seq<char> {
    "seq-kv"@
}

/// The key-value store's address, as an owned string.
pub fn kv_store_id() -> (r: String)
    ensures
        r@ == kv_store_id_view(),
{
    let s: &str = "seq-kv";
    s.to_owned()
}

/// Whether an inbound message comes from the key-value store and must be
/// routed to the correlator instead of the application handler.
pub fn is_kv_reply(src: &String) -> (r: bool)
    ensures
        r == (src@ == kv_store_id_view()),
{
    let id = kv_store_id();
    *src == id
}

/// Correlation state for synchronous-style peer calls: the next outgoing
/// message id and the set of ids whose replies are still outstanding.
///
/// The embedding program keeps one completion slot per pending id; this
/// type decides which ids exist and when a reply is legitimate.
#[derive(Clone, Debug, PartialEq, Eq)]
pub struct Correlator {
    next_message_id: i32,
    pending: Vec<i32>,
}

impl Correlator {
    /// The id the next registered request will carry.
    pub closed spec fn next_id(&self) -> int {
        self.next_message_id as int
    }

    /// The ids of requests whose replies are still outstanding.
    pub closed spec fn pending_ids(&self) -> Set<i32> {
        self.pending@.to_set()
    }

    /// Every pending id was issued earlier than the next one, and none is
    /// recorded twice.
    pub closed spec fn wf(&self) -> bool {
        &&& self.pending@.no_duplicates()
        &&& forall|k: int|
            0 <= k < self.pending@.len() ==> (#[trigger] self.pending@[k]) < self.next_message_id
        &&& 0 <= self.next_message_id
    }

    /// What one registration does: it hands out the next id, moves the
    /// counter past it, and adds it to the outstanding set.
    pub open spec fn register_step(pre: Correlator, post: Correlator, id: i32) -> bool {
        &&& id as int == pre.next_id()
        &&& post.next_id() == pre.next_id() + 1
        &&& post.pending_ids() == pre.pending_ids().insert(id)
    }

    /// A fresh correlator: ids start at zero, nothing outstanding.
    pub fn new() -> (r: Correlator)
        ensures
            r.wf(),
            r.next_id() == 0,
            r.pending_ids() == Set::<i32>::empty(),
    {
        let r = Correlator { next_message_id: 0, pending: Vec::new() };
        proof {
            assert(r.pending_ids() =~= Set::<i32>::empty());
        }
        r
    }

    /// The id the next registered request will carry, for callers that
    /// must check it is not exhausted before registering.
    pub fn peek_next_id(&self) -> (id: i32)
        ensures
            id as int == self.next_id(),
    {
        self.next_message_id
    }

    /// Obtain the id for a new outgoing request and record it as
    /// outstanding. Successive registrations return strictly increasing ids
    /// (see `lemma_message_ids_strictly_increase`).
    pub fn register(&mut self) -> (id: i32)
        requires
            old(self).wf(),
            old(self).next_id() < i32::MAX,
        ensures
            final(self).wf(),
            Correlator::register_step(*old(self), *final(self), id),
    {
        let id = self.next_message_id;
        let ghost pre = self.pending@;
        self.pending.push(id);
        self.next_message_id = self.next_message_id + 1;
        proof {
            broadcast use vstd::seq_lib::group_seq_properties;

            assert(!pre.contains(id));
            assert forall|j: int, k: int|
                0 <= j < k < self.pending@.len() implies self.pending@[j] != self.pending@[k] by {
                if k < pre.len() {
                } else {
                    assert(self.pending@[k] == id);
                    assert(pre.contains(pre[j]));
                }
            }
            assert(self.pending@.to_set() =~= pre.to_set().insert(id));
        }
        id
    }

    /// Accept a reply: the id it answers must be outstanding, and stops
    /// being so — each completion slot is read at most once. A reply
    /// without an id, or for an id that is unknown or already resolved, is
    /// a protocol violation and is reported, not dropped.
    #[verifier::loop_isolation(false)]
    pub fn resolve(&mut self, in_reply_to: Option<i32>) -> (r: Result<(), NodeError>)
        requires
            old(self).wf(),
        ensures
            final(self).wf(),
            final(self).next_id() == old(self).next_id(),
            match r {
                Ok(_) => {
                    &&& in_reply_to matches Some(id) && old(self).pending_ids().contains(id)
                        && final(self).pending_ids() == old(self).pending_ids().remove(id)
                },
                Err(e) => {
                    &&& *final(self) == *old(self)
                    &&& match in_reply_to {
                        None => e == NodeError::MissingInReplyTo,
                        Some(id) => e == NodeError::UnknownCorrelationId && !old(
                            self,
                        ).pending_ids().contains(id),
                    }
                },
            },
    {
        let id = match in_reply_to {
            None => {
                return Err(NodeError::MissingInReplyTo);
            },
            Some(id) => id,
        };
        let n = self.pending.len();
        let mut j: usize = 0;
        while j < n
            invariant
                n == self.pending@.len(),
                0 <= j <= n,
                *self == *old(self),
                forall|k: int| 0 <= k < j ==> self.pending@[k] != id,
            decreases n - j,
        {
            if self.pending[j] == id {
                let ghost pre = self.pending@;
                self.pending.remove(j);
                proof {
                    broadcast use vstd::seq_lib::group_seq_properties;

                    assert(pre.contains(id));
                    assert(pre.to_set().contains(id));
                    let rm = self.pending@;
                    assert(rm == pre.remove(j as int));
                    pre.remove_ensures(j as int);
                    assert forall|p: int, q: int|
                        0 <= p < q < rm.len() implies rm[p] != rm[q] by {
                        let p0: int = if p < j { p } else { p + 1 };
                        let q0: int = if q < j { q } else { q + 1 };
                        assert(pre.remove(j as int)[p] == pre[p0]);
                        assert(pre.remove(j as int)[q] == pre[q0]);
                        assert(rm[p] == pre[p0] && rm[q] == pre[q0]);
                    }
                    assert forall|x: i32|
                        rm.to_set().contains(x) <==> pre.to_set().remove(id).contains(x) by {
                        if rm.contains(x) {
                            let k = choose|k: int| 0 <= k < rm.len() && rm[k] == x;
                            let k0: int = if k < j { k } else { k + 1 };
                            assert(pre.remove(j as int)[k] == pre[k0]);
                            assert(pre[k0] == x);
                            assert(pre.contains(x));
                            if x == id {
                                assert(pre[k0] == pre[j as int] && k0 != j);
                                assert(false);
                            }
                        }
                        if pre.contains(x) && x != id {
                            let k = choose|k: int| 0 <= k < pre.len() && pre[k] == x;
                            let k1: int = if k < j { k } else { k - 1 };
                            assert(pre.remove(j as int)[k1] == pre[k]);
                            assert(rm[k1] == x);
                            assert(rm.contains(x));
                        }
                    }
                    assert(rm.to_set() =~= pre.to_set().remove(id));
                }
                return Ok(());
            }
            j += 1;
        }
        proof {
            broadcast use vstd::seq_lib::group_seq_properties;

            assert(!self.pending@.contains(id));
        }
        Err(NodeError::UnknownCorrelationId)
    }
}

/// Build a correlated request to the key-value store: addressed to its
/// fixed pseudo-peer identity and tagged with the registered message id.
pub fn kv_request(node_id: &String, message_id: i32, payload: KvPayload) -> (m: Message<KvPayload>)
    ensures
        m.src == *node_id,
        m.dest@ == kv_store_id_view(),
        m.body.message_id == Some(message_id),
        m.body.in_reply_to is None,
        m.body.payload == payload,
{
    Message {
        src: node_id.clone(),
        dest: kv_store_id(),
        body: MessageBody { message_id: Some(message_id), in_reply_to: None, payload },
    }
}

/// The request payload of `read(key)`: the stored value, or a not-found
/// error.
pub fn read_request(node_id: &String, message_id: i32, key: String) -> (m: Message<KvPayload>)
    ensures
        m.src == *node_id,
        m.dest@ == kv_store_id_view(),
        m.body.message_id == Some(message_id),
        m.body.in_reply_to is None,
        m.body.payload == (KvPayload::Read { key }),
{
    kv_request(node_id, message_id, KvPayload::Read { key })
}

/// The request payload of `write(key, value)`: an unconditional upsert.
pub fn write_request(node_id: &String, message_id: i32, key: String, value: String) -> (m: Message<
    KvPayload,
>)
    ensures
        m.src == *node_id,
        m.dest@ == kv_store_id_view(),
        m.body.message_id == Some(message_id),
        m.body.in_reply_to is None,
        m.body.payload == (KvPayload::Write { key, value }),
{
    kv_request(node_id, message_id, KvPayload::Write { key, value })
}

/// The request payload of `compare-and-swap(key, from, to,
/// create_if_not_exists)`: succeeds only if the stored value equals `from`,
/// or the key is absent and creation is permitted.
pub fn cas_request(
    node_id: &String,
    message_id: i32,
    key: String,
    from: String,
    to: String,
    create_if_not_exists: bool,
) -> (m: Message<KvPayload>)
    ensures
        m.src == *node_id,
        m.dest@ == kv_store_id_view(),
        m.body.message_id == Some(message_id),
        m.body.in_reply_to is None,
        m.body.payload == (KvPayload::Cas { key, from, to, create_if_not_exists }),
{
    kv_request(node_id, message_id, KvPayload::Cas { key, from, to, create_if_not_exists })
}

/// Interpret the store's answer to a read: the stored value, key-not-found,
/// or — for any other variant — a protocol violation.
pub fn classify_read_reply(reply: KvPayload) -> (r: Result<String, NodeError>)
    ensures
        match reply {
            KvPayload::ReadOk { value } => r == Ok::<String, NodeError>(value),
            KvPayload::Error => r == Err::<String, NodeError>(NodeError::KeyNotFound),
            _ => r == Err::<String, NodeError>(NodeError::UnexpectedReplyType),
        },
{
    match reply {
        KvPayload::ReadOk { value } => Ok(value),
        KvPayload::Error => Err(NodeError::KeyNotFound),
        _ => Err(NodeError::UnexpectedReplyType),
    }
}

/// Interpret the store's answer to a write: an upsert cannot fail, so only
/// the write acknowledgement is in order.
pub fn classify_write_reply(reply: KvPayload) -> (r: Result<(), NodeError>)
    ensures
        match reply {
            KvPayload::WriteOk => r is Ok,
            _ => r == Err::<(), NodeError>(NodeError::UnexpectedReplyType),
        },
{
    match reply {
        KvPayload::WriteOk => Ok(()),
        _ => Err(NodeError::UnexpectedReplyType),
    }
}

/// Interpret the store's answer to a compare-and-swap: success, a conflict
/// (the stored value was not the expected one) to surface to the caller
/// for its retry logic, or a protocol violation.
pub fn classify_cas_reply(reply: KvPayload) -> (r: Result<(), NodeError>)
    ensures
        match reply {
            KvPayload::CasOk => r is Ok,
            KvPayload::Error => r == Err::<(), NodeError>(NodeError::CasConflict),
            _ => r == Err::<(), NodeError>(NodeError::UnexpectedReplyType),
        },
{
    match reply {
        KvPayload::CasOk => Ok(()),
        KvPayload::Error => Err(NodeError::CasConflict),
        _ => Err(NodeError::UnexpectedReplyType),
    }
}

/// Correlation correctness, first half: a node's successive outgoing
/// message ids strictly increase, so no two requests ever share an id.
pub proof fn lemma_message_ids_strictly_increase(
    c0: Correlator,
    c1: Correlator,
    c2: Correlator,
    id1: i32,
    id2: i32,
)
    requires
        Correlator::register_step(c0, c1, id1),
        Correlator::register_step(c1, c2, id2),
    ensures
        id1 < id2,
{
}

/// Correlation correctness, second half: a reply built for a request
/// answers exactly that request's message id.
pub proof fn lemma_reply_correlates<P2, P>(reply: Message<P2>, request: Message<P>)
    requires
        is_reply_to(reply, request),
    ensures
        reply.body.in_reply_to == request.body.message_id,
{
}

} // verus!
