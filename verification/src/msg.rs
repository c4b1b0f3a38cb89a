//! The consensus wire protocol between peers, and the per-step `Ready`
//! batch a peer hands its driver: entries to persist, messages to send,
//! entries to apply, and a snapshot to install if one arrived.

use vstd::prelude::*;
use crate::region::Epoch;
use crate::rlog::{log_view, Entry, EntryView};
use crate::peer_storage::{Snapshot, SnapshotView};

verus! {

/// The payload of one protocol message.
pub enum MsgKind {
    /// A candidate asks for a vote, advertising how up to date its log is.
    VoteRequest { last_log_index: u64, last_log_term: u64 },
    /// The answer to a vote request.
    VoteResponse { granted: bool },
    /// A leader replicates entries following `(prev_index, prev_term)`.
    AppendRequest { prev_index: u64, prev_term: u64, entries: Vec<Entry>, commit: u64 },
    /// The follower's answer: on success, how far its log now reaches; on
    /// rejection, a hint for the leader to back up to.
    AppendResponse { success: bool, last_index: u64 },
    /// A leader's liveness beacon, carrying a safe commit index for the
    /// recipient.
    Heartbeat { commit: u64 },
    /// The follower's answer to a heartbeat.
    HeartbeatResponse { last_index: u64 },
    /// A bulk state transfer for a peer whose log lag exceeds the
    /// retained window.
    SnapshotTransfer { snap: Snapshot },
}

/// The mathematical value of a message payload.
pub enum MsgKindView {
    VoteRequest { last_log_index: u64, last_log_term: u64 },
    VoteResponse { granted: bool },
    AppendRequest { prev_index: u64, prev_term: u64, entries: Seq<EntryView>, commit: u64 },
    AppendResponse { success: bool, last_index: u64 },
    Heartbeat { commit: u64 },
    HeartbeatResponse { last_index: u64 },
    SnapshotTransfer { snap: SnapshotView },
}

impl View for MsgKind {
    type V = MsgKindView;

    open spec fn view(&self) -> MsgKindView {
        match self {
            MsgKind::VoteRequest { last_log_index, last_log_term } => (MsgKindView::VoteRequest {
                last_log_index: *last_log_index,
                last_log_term: *last_log_term,
            }),
            MsgKind::VoteResponse { granted } => (MsgKindView::VoteResponse { granted: *granted }),
            MsgKind::AppendRequest { prev_index, prev_term, entries, commit } => (
            MsgKindView::AppendRequest {
                prev_index: *prev_index,
                prev_term: *prev_term,
                entries: log_view(entries@),
                commit: *commit,
            }),
            MsgKind::AppendResponse { success, last_index } => (MsgKindView::AppendResponse {
                success: *success,
                last_index: *last_index,
            }),
            MsgKind::Heartbeat { commit } => (MsgKindView::Heartbeat { commit: *commit }),
            MsgKind::HeartbeatResponse { last_index } => (MsgKindView::HeartbeatResponse {
                last_index: *last_index,
            }),
            MsgKind::SnapshotTransfer { snap } => (MsgKindView::SnapshotTransfer { snap: snap@ }),
        }
    }
}

/// One protocol message between two peers of one region. Delivery is
/// unordered and unreliable; the term and epoch checks of the receiving
/// peer make that safe.
pub struct RaftMessage {
    pub region_id: u64,
    pub from_peer: u64,
    pub to_peer: u64,
    pub term: u64,
    pub epoch: Epoch,
    pub kind: MsgKind,
}

/// The mathematical value of a message.
pub struct RaftMessageView {
    pub region_id: u64,
    pub from_peer: u64,
    pub to_peer: u64,
    pub term: u64,
    pub epoch: Epoch,
    pub kind: MsgKindView,
}

impl View for RaftMessage {
    type V = RaftMessageView;

    open spec fn view(&self) -> RaftMessageView {
        RaftMessageView {
            region_id: self.region_id,
            from_peer: self.from_peer,
            to_peer: self.to_peer,
            term: self.term,
            epoch: self.epoch,
            kind: self.kind@,
        }
    }
}

/// The ephemeral output of one peer step: what to persist, what to send
/// once persisted, what to hand to the apply state machine, and a
/// snapshot to install if one was accepted. Regenerated every step, never
/// persisted.
pub struct Ready {
    /// Entries not yet durable; persist them before sending `messages`.
    pub entries_to_persist: Vec<Entry>,
    /// Outbound messages, released only after the entries are durable.
    pub messages: Vec<RaftMessage>,
    /// Newly committed entries, to apply in order.
    pub committed_entries: Vec<Entry>,
    /// A snapshot accepted from the leader, to install in the apply state
    /// machine.
    pub snapshot: Option<Snapshot>,
}

} // verus!
