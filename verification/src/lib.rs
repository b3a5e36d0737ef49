//! Building blocks for nodes in a message-passing distributed-systems
//! harness: message envelopes with request/reply correlation, a convergent
//! replicated broadcast set with anti-entropy synchronization, and a client
//! state machine for an external sequential key-value store.
//!
//! The library holds the verified protocol logic; transport (one JSON
//! message per line over standard input/output) and task scheduling are
//! left to the embedding program.

mod envelope;
mod error;
mod gossip;
mod kv;
mod payload;

pub use envelope::Init;
pub use envelope::InitOk;
pub use envelope::Message;
pub use envelope::MessageBody;
pub use envelope::handshake_reply;
pub use envelope::is_reply_to;
pub use error::NodeError;
pub use gossip::BroadcastSet;
pub use gossip::BroadcastState;
pub use gossip::NeighborRecord;
pub use gossip::SyncPlanEntry;
pub use gossip::SyncPolicy;
pub use gossip::entry_for;
pub use gossip::id_lt;
pub use gossip::initiates;
pub use gossip::lemma_convergence_along_path;
pub use gossip::lemma_insert_idempotent;
pub use gossip::lemma_monotonic_local_reads;
pub use gossip::lemma_sync_exchange_converges;
pub use gossip::lemma_sync_quiescence;
pub use gossip::lex_lt;
pub use gossip::merge_at;
pub use gossip::node_id_lt;
pub use gossip::sweep_back;
pub use gossip::sweep_forward;
pub use gossip::sync_plan;
pub use gossip::sync_step;
pub use gossip::union_of;
pub use kv::Correlator;
pub use kv::cas_request;
pub use kv::classify_cas_reply;
pub use kv::classify_read_reply;
pub use kv::classify_write_reply;
pub use kv::is_kv_reply;
pub use kv::kv_request;
pub use kv::kv_store_id;
pub use kv::lemma_message_ids_strictly_increase;
pub use kv::lemma_reply_correlates;
pub use kv::read_request;
pub use kv::write_request;
pub use payload::KvPayload;
pub use payload::Payload;
pub use payload::TopologyEntry;
