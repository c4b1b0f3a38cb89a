//! Replication core of a distributed transactional key-value store.
//!
//! The keyspace is partitioned into regions, each replicated by one Raft
//! consensus group. Committed log entries are driven through an apply
//! pipeline into a per-region state machine. The modules follow the
//! components of that design: the keyspace codec, the per-region log and
//! snapshot storage, the apply state machine, the peer consensus state
//! machine, the tick driver, the transport queues, and crash recovery.

pub mod apply;
pub mod engine;
pub mod keys;
pub mod msg;
pub mod peer;
pub mod peer_storage;
pub mod recover;
pub mod region;
pub mod rlog;
pub mod ticker;
pub mod transport;

use vstd::prelude::*;

verus! {

/// Errors a caller can see from the replication core. All of them are
/// transient or recoverable: the caller retries or redirects.
#[derive(Clone, Copy, Debug, PartialEq, Eq, Structural)]
pub enum RaftError {
    /// The peer is not the leader of its region.
    NotLeader,
    /// The message or proposal carried a region epoch older than ours.
    StaleEpoch,
    /// The bounded proposal queue is full; retry later.
    ProposalDropped,
    /// The bounded outbound queue for the destination is full, or the
    /// destination is unreachable; the consensus protocol tolerates loss.
    SendFailed,
    /// The requested log index was compacted away; a snapshot is needed.
    LogCompacted,
}

} // verus!
