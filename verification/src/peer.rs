//! The per-region peer state machine: wraps one Raft consensus instance,
//! consumes proposals, transport messages and ticks, and produces a
//! `Ready` batch of entries to persist, messages to send and entries to
//! apply. A stale epoch is rejected before anything else is looked at.

use vstd::prelude::*;
use crate::RaftError;
use crate::apply::ApplyFsm;
use crate::msg::{MsgKind, RaftMessage, Ready};
use crate::peer_storage::{umin, PeerStorage, Snapshot};
use crate::region::{check_epoch_stale, epoch_stale, Epoch, Region};
use crate::rlog::{
    clone_entries_range, log_contiguous, log_view, terms_monotone, Command, Entry,
};

verus! {

/// The Raft role of a peer.
#[derive(Clone, Copy, Debug, PartialEq, Eq, Structural)]
pub enum Role {
    Follower,
    Candidate,
    Leader,
}

/// The application-level state a peer is additionally in. A pending
/// administrative change gates lease reads; `Destroying` is terminal.
#[derive(Clone, Copy, Debug, PartialEq, Eq, Structural)]
pub enum SubState {
    Normal,
    PendingConfChange,
    PendingSplit,
    PendingMerge,
    Destroying,
}

/// A leader's view of one replica's replication progress.
#[derive(Clone, Copy, Debug, PartialEq, Eq, Structural)]
pub struct Progress {
    pub peer_id: u64,
    pub matched: u64,
    pub next_index: u64,
}

/// How many of the tracked replicas have matched at least index `m`.
pub open spec fn count_at_least(ps: Seq<Progress>, m: u64) -> int
    decreases ps.len(),
{
    if ps.len() == 0 {
        0
    } else {
        count_at_least(ps.drop_last(), m) + if ps.last().matched >= m {
            1int
        } else {
            0int
        }
    }
}

/// One peer of one region: the consensus state, the durable storage, the
/// leader bookkeeping and the staged outputs of the current step.
pub struct PeerFsm {
    pub peer_id: u64,
    pub region: Region,
    pub role: Role,
    pub sub_state: SubState,
    pub leader_id: u64,
    pub store: PeerStorage,
    pub votes: Vec<u64>,
    pub hb_acks: Vec<u64>,
    pub progress: Vec<Progress>,
    pub proposal_limit: usize,
    pub pending_proposals: usize,
    pub election_elapsed: u64,
    pub election_timeout: u64,
    pub heartbeat_elapsed: u64,
    pub heartbeat_interval: u64,
    pub clock: u64,
    pub lease_duration: u64,
    pub lease_until: u64,
    pub msgs: Vec<RaftMessage>,
    pub pending_snapshot: Option<Snapshot>,
    pub persisted_index: u64,
    pub committed_cursor: u64,
}

impl PeerFsm {
    /// Well-formedness of a peer: its storage is well formed and belongs
    /// to its region, its counters stay inside their bounds, and the
    /// leader bookkeeping never points outside the log.
    pub open spec fn wf(self) -> bool {
        &&& self.store.wf()
        &&& self.region@.id == self.store.region_id
        &&& self.store.hard_state.term < u64::MAX
        &&& self.election_timeout > 0
        &&& self.heartbeat_interval > 0
        &&& self.election_elapsed < self.election_timeout
        &&& self.heartbeat_elapsed < self.heartbeat_interval
        &&& (self.role is Leader ==> self.leader_id == self.peer_id)
        &&& forall|i: int|
            0 <= i < self.progress@.len() ==> 1 <= (#[trigger] self.progress@[i]).next_index
                <= self.store.spec_last_index() + 1 && self.progress@[i].matched
                <= self.store.spec_last_index()
        &&& forall|i: int, j: int|
            0 <= i < j < self.votes@.len() ==> #[trigger] self.votes@[i] != #[trigger] self.votes@[j]
        &&& self.store.apply_state.truncated_index <= self.committed_cursor
            <= self.store.hard_state.commit
        &&& self.store.apply_state.truncated_index <= self.persisted_index
            <= self.store.spec_last_index()
    }

    /// A fresh peer over the given storage, a follower with nothing
    /// staged.
    pub fn new(
        peer_id: u64,
        region: Region,
        store: PeerStorage,
        election_timeout: u64,
        heartbeat_interval: u64,
        lease_duration: u64,
        proposal_limit: usize,
    ) -> (r: PeerFsm)
        requires
            store.wf(),
            region@.id == store.region_id,
            store.hard_state.term < u64::MAX,
            election_timeout > 0,
            heartbeat_interval > 0,
        ensures
            r.wf(),
            r.peer_id == peer_id,
            r.region@ == region@,
            r.role is Follower,
            r.sub_state is Normal,
            r.store == store,
            r.msgs@.len() == 0,
            r.committed_cursor == store.apply_state.applied_index,
            r.persisted_index == store.spec_last_index(),
    {
        let persisted = store.last_index();
        let cursor = store.apply_state.applied_index;
        PeerFsm {
            peer_id,
            region,
            role: Role::Follower,
            sub_state: SubState::Normal,
            leader_id: 0,
            store,
            votes: Vec::new(),
            hb_acks: Vec::new(),
            progress: Vec::new(),
            proposal_limit,
            pending_proposals: 0,
            election_elapsed: 0,
            election_timeout,
            heartbeat_elapsed: 0,
            heartbeat_interval,
            clock: 0,
            lease_duration,
            lease_until: 0,
            msgs: Vec::new(),
            pending_snapshot: None,
            persisted_index: persisted,
            committed_cursor: cursor,
        }
    }

    /// Proposes a command: rejected with `StaleEpoch` when the caller's
    /// epoch is outdated (whatever else holds), with `NotLeader` when this
    /// peer does not lead, with `ProposalDropped` when the bounded
    /// proposal queue is full; otherwise the command enters the log at the
    /// next index under the current term.
    pub fn propose(&mut self, cmd: Command, epoch: Epoch) -> (r: Result<u64, RaftError>)
        requires
            old(self).wf(),
            old(self).store.spec_last_index() + 2 <= u64::MAX,
        ensures
            final(self).wf(),
            final(self).region@ == old(self).region@,
            epoch_stale(epoch, old(self).region@.epoch) <==> r == Err::<u64, RaftError>(
                RaftError::StaleEpoch,
            ),
            !epoch_stale(epoch, old(self).region@.epoch) && !(old(self).role is Leader) <==> r
                == Err::<u64, RaftError>(RaftError::NotLeader),
            !epoch_stale(epoch, old(self).region@.epoch) && old(self).role is Leader && old(
                self,
            ).pending_proposals >= old(self).proposal_limit <==> r == Err::<u64, RaftError>(
                RaftError::ProposalDropped,
            ),
            r matches Ok(idx) ==> {
                &&& idx == old(self).store.spec_last_index() + 1
                &&& final(self).store.log() == old(self).store.log().push(
                    crate::rlog::EntryView {
                        term: old(self).store.hard_state.term,
                        index: idx,
                        cmd: cmd@,
                    },
                )
                &&& final(self).store.hard_state == old(self).store.hard_state
                &&& final(self).store.apply_state == old(self).store.apply_state
                &&& final(self).pending_proposals == old(self).pending_proposals + 1
                &&& final(self).role == old(self).role
            },
            (r is Ok) == (!epoch_stale(epoch, old(self).region@.epoch) && old(self).role is Leader
                && old(self).pending_proposals < old(self).proposal_limit),
            r is Err ==> *final(self) == *old(self),
    {
        if check_epoch_stale(&epoch, &self.region.epoch) {
            return Err(RaftError::StaleEpoch);
        }
        if !matches!(self.role, Role::Leader) {
            return Err(RaftError::NotLeader);
        }
        if self.pending_proposals >= self.proposal_limit {
            return Err(RaftError::ProposalDropped);
        }
        let idx = self.store.last_index() + 1;
        let term = self.store.hard_state.term;
        let is_split = matches!(&cmd, Command::Split { .. });
        let is_conf_change = matches!(&cmd, Command::AddPeer { .. }) || matches!(
            &cmd,
            Command::RemovePeer { .. },
        );
        let e = Entry { term, index: idx, cmd };
        let mut ents: Vec<Entry> = Vec::new();
        ents.push(e);
        proof {
            assert(log_view(ents@) =~= seq![
                crate::rlog::EntryView { term, index: idx, cmd: ents@[0].cmd@ },
            ]);
            assert(log_contiguous(log_view(ents@), idx as int));
            assert(terms_monotone(log_view(ents@)));
        }
        let hs = self.store.hard_state;
        self.store.append(&ents, hs);
        proof {
            assert(self.store.log() =~= old(self).store.log().push(log_view(ents@)[0]));
        }
        self.pending_proposals = self.pending_proposals + 1;
        if is_split {
            self.sub_state = SubState::PendingSplit;
        } else if is_conf_change {
            self.sub_state = SubState::PendingConfChange;
        }
        let mut i: usize = 0;
        let n = self.progress.len();
        let ghost mid = *self;
        while i < n
            invariant
                n == self.progress@.len(),
                i <= n,
                mid.wf(),
                self.progress@.len() == mid.progress@.len(),
                forall|j: int|
                    0 <= j < self.progress@.len() ==> (#[trigger] self.progress@[j]).peer_id
                        == mid.progress@[j].peer_id,
                forall|j: int|
                    0 <= j < self.progress@.len() ==> 1 <= (#[trigger] self.progress@[j]).next_index
                        <= mid.store.spec_last_index() + 1 && self.progress@[j].matched
                        <= mid.store.spec_last_index(),
                *self == (PeerFsm { progress: self.progress, ..mid }),
                idx == mid.store.spec_last_index(),
            decreases n - i,
        {
            if self.progress[i].peer_id == self.peer_id {
                let old_p = self.progress[i];
                let np = Progress { peer_id: old_p.peer_id, matched: idx, next_index: idx + 1 };
                let slot = &mut self.progress[i];
                *slot = np;
                proof {
                    assert(self.progress@[i as int].matched <= mid.store.spec_last_index());
                }
            }
            i = i + 1;
        }
        Ok(idx)
    }

    /// Whether this peer may answer a read from local state without a log
    /// round-trip: it leads, its lease has not expired, and no pending
    /// administrative change could have moved leadership.
    pub fn can_read_locally(&self) -> (r: bool)
        ensures
            r == (self.role is Leader && self.clock < self.lease_until && self.sub_state
                is Normal),
    {
        matches!(self.role, Role::Leader) && self.clock < self.lease_until && matches!(
            self.sub_state,
            SubState::Normal,
        )
    }

    /// A safe commit point for a linearizable read without a lease: once
    /// apply reaches it, local state answers the read.
    pub fn read_index(&self) -> (r: u64)
        requires
            self.wf(),
        ensures
            r == self.store.hard_state.commit,
    {
        self.store.hard_state.commit
    }

    /// Advances logical time: election timeout for a non-leader (it
    /// campaigns when the timeout fires), heartbeat broadcast for a
    /// leader. Drift between ticks coalesces: one call is one tick.
    pub fn tick(&mut self)
        requires
            old(self).wf(),
        ensures
            final(self).wf(),
            final(self).region@ == old(self).region@,
            final(self).store.hard_state.term >= old(self).store.hard_state.term,
            final(self).store.apply_state == old(self).store.apply_state,
            final(self).store.log() == old(self).store.log(),
            old(self).role is Leader ==> final(self).role is Leader
                && final(self).store.hard_state == old(self).store.hard_state,
            (!(old(self).role is Leader) && old(self).election_elapsed + 1
                >= old(self).election_timeout && old(self).store.hard_state.term + 1 < u64::MAX)
                ==> (final(self).role is Candidate
                && final(self).store.hard_state.term == old(self).store.hard_state.term + 1
                && final(self).store.hard_state.vote == old(self).peer_id),
            (!(old(self).role is Leader) && old(self).election_elapsed + 1
                < old(self).election_timeout) ==> (final(self).role == old(self).role
                && final(self).store.hard_state == old(self).store.hard_state
                && final(self).election_elapsed == old(self).election_elapsed + 1),
            final(self).clock == (if old(self).clock < u64::MAX {
                old(self).clock + 1
            } else {
                old(self).clock as int
            }),
            // a leader whose heartbeat interval fires stages a heartbeat for
            // every other tracked replica
            (old(self).role is Leader && old(self).heartbeat_elapsed + 1 >= old(
                self,
            ).heartbeat_interval) ==> (final(self).heartbeat_elapsed == 0 && (forall|j: int|
                0 <= j < old(self).progress@.len() && (#[trigger] old(self).progress@[j]).peer_id
                    != old(self).peer_id ==> (exists|k: int|
                    old(self).msgs@.len() <= k < final(self).msgs@.len() && is_heartbeat_to(
                        (#[trigger] final(self).msgs@[k])@,
                        *old(self),
                        old(self).progress@[j],
                    )))),
            (old(self).role is Leader && old(self).heartbeat_elapsed + 1 < old(
                self,
            ).heartbeat_interval) ==> (final(self).heartbeat_elapsed == old(self).heartbeat_elapsed
                + 1 && final(self).msgs@ == old(self).msgs@),
            // a follower or candidate whose election timeout fires campaigns:
            // a vote request is staged for every other replica of the region
            (!(old(self).role is Leader) && old(self).election_elapsed + 1 >= old(
                self,
            ).election_timeout && old(self).store.hard_state.term + 1 < u64::MAX) ==> (forall|
                j: int,
            |
                0 <= j < old(self).region@.peers.len() && (#[trigger] old(
                    self,
                ).region@.peers[j]).id != old(self).peer_id ==> (exists|k: int|
                    old(self).msgs@.len() <= k < final(self).msgs@.len() && is_vote_request_from(
                        (#[trigger] final(self).msgs@[k])@,
                        *old(self),
                        old(self).region@.peers[j].id,
                    ))),
    {
        if self.clock < u64::MAX {
            self.clock = self.clock + 1;
        }
        if matches!(self.role, Role::Leader) {
            if self.heartbeat_elapsed + 1 >= self.heartbeat_interval {
                self.heartbeat_elapsed = 0;
                let ghost mid = *self;
                self.broadcast_heartbeat();
                proof {
                    assert forall|j: int|
                        0 <= j < old(self).progress@.len() && (#[trigger] old(
                        self,
                    ).progress@[j]).peer_id != old(self).peer_id implies (exists|k: int|
                        old(self).msgs@.len() <= k < self.msgs@.len() && is_heartbeat_to(
                            (#[trigger] self.msgs@[k])@,
                            *old(self),
                            old(self).progress@[j],
                        )) by {
                        let k = choose|k: int|
                            mid.msgs@.len() <= k < self.msgs@.len() && is_heartbeat_to(
                                (#[trigger] self.msgs@[k])@,
                                mid,
                                mid.progress@[j],
                            );
                        assert(is_heartbeat_to(self.msgs@[k]@, *old(self), old(self).progress@[j]));
                    }
                }
            } else {
                self.heartbeat_elapsed = self.heartbeat_elapsed + 1;
            }
        } else {
            if self.election_elapsed + 1 >= self.election_timeout {
                self.election_elapsed = 0;
                if self.store.hard_state.term + 1 < u64::MAX {
                    let ghost mid = *self;
                    self.campaign();
                    proof {
                        assert forall|j: int|
                            0 <= j < old(self).region@.peers.len() && (#[trigger] old(
                            self,
                        ).region@.peers[j]).id != old(self).peer_id implies (exists|k: int|
                            old(self).msgs@.len() <= k < self.msgs@.len() && is_vote_request_from(
                                (#[trigger] self.msgs@[k])@,
                                *old(self),
                                old(self).region@.peers[j].id,
                            )) by {
                            let k = choose|k: int|
                                mid.msgs@.len() <= k < self.msgs@.len() && is_vote_request_from(
                                    (#[trigger] self.msgs@[k])@,
                                    mid,
                                    mid.region@.peers[j].id,
                                );
                            assert(is_vote_request_from(
                                self.msgs@[k]@,
                                *old(self),
                                old(self).region@.peers[j].id,
                            ));
                        }
                    }
                }
            } else {
                self.election_elapsed = self.election_elapsed + 1;
            }
        }
    }

    /// Starts an election: a higher term, a vote for ourselves, and a vote
    /// request to every other replica.
    fn campaign(&mut self)
        requires
            old(self).wf(),
            old(self).store.hard_state.term + 1 < u64::MAX,
            !(old(self).role is Leader),
        ensures
            final(self).wf(),
            final(self).region@ == old(self).region@,
            final(self).role is Candidate,
            final(self).store.hard_state.term == old(self).store.hard_state.term + 1,
            final(self).store.hard_state.vote == old(self).peer_id,
            final(self).store.hard_state.commit == old(self).store.hard_state.commit,
            final(self).store.log() == old(self).store.log(),
            final(self).store.apply_state == old(self).store.apply_state,
            final(self).election_elapsed == old(self).election_elapsed,
            final(self).persisted_index == old(self).persisted_index,
            final(self).committed_cursor == old(self).committed_cursor,
            final(self).clock == old(self).clock,
            forall|j: int| 0 <= j < old(self).msgs@.len() ==> final(self).msgs@[j] == old(self).msgs@[j],
            // every other replica of the region gets its vote request staged
            forall|j: int|
                0 <= j < old(self).region@.peers.len() && (#[trigger] old(
                    self,
                ).region@.peers[j]).id != old(self).peer_id ==> (exists|k: int|
                    old(self).msgs@.len() <= k < final(self).msgs@.len() && is_vote_request_from(
                        (#[trigger] final(self).msgs@[k])@,
                        *old(self),
                        old(self).region@.peers[j].id,
                    )),
    {
        let term = self.store.hard_state.term + 1;
        self.store.set_term_vote(term, self.peer_id);
        self.role = Role::Candidate;
        self.leader_id = 0;
        self.votes = Vec::new();
        self.votes.push(self.peer_id);
        let last = self.store.last_index();
        let last_term = match self.store.term(last) {
            Some(t) => t,
            None => 0,
        };
        proof {
            assert(last == old(self).store.spec_last_index());
            assert(last_term == old(self).store.spec_term_at(old(self).store.spec_last_index()));
        }
        let mut i: usize = 0;
        while i < self.region.peers.len()
            invariant
                old(self).wf(),
                self.region@ == old(self).region@,
                self.store.wf(),
                self.store.hard_state == (crate::peer_storage::HardState {
                    term,
                    vote: old(self).peer_id,
                    commit: old(self).store.hard_state.commit,
                }),
                self.store.entries@ == old(self).store.entries@,
                self.store.apply_state == old(self).store.apply_state,
                self.store.region_id == old(self).store.region_id,
                term < u64::MAX,
                self.votes@.len() == 1,
                self.votes@[0] == old(self).peer_id,
                self.role is Candidate,
                self.leader_id == 0,
                self.peer_id == old(self).peer_id,
                self.persisted_index == old(self).persisted_index,
                self.committed_cursor == old(self).committed_cursor,
                self.election_elapsed == old(self).election_elapsed,
                self.election_timeout == old(self).election_timeout,
                self.heartbeat_interval == old(self).heartbeat_interval,
                self.heartbeat_elapsed == old(self).heartbeat_elapsed,
                self.progress@ == old(self).progress@,
                self.clock == old(self).clock,
                term == old(self).store.hard_state.term + 1,
                i <= self.region@.peers.len(),
                last == old(self).store.spec_last_index(),
                last_term == old(self).store.spec_term_at(old(self).store.spec_last_index()),
                old(self).msgs@.len() <= self.msgs@.len(),
                forall|j: int| 0 <= j < old(self).msgs@.len() ==> self.msgs@[j] == old(self).msgs@[j],
                forall|j: int|
                    0 <= j < i && (#[trigger] old(self).region@.peers[j]).id != old(
                        self,
                    ).peer_id ==> (exists|k: int|
                        old(self).msgs@.len() <= k < self.msgs@.len() && is_vote_request_from(
                            (#[trigger] self.msgs@[k])@,
                            *old(self),
                            old(self).region@.peers[j].id,
                        )),
            decreases self.region.peers@.len() - i,
        {
            let to = self.region.peers[i].id;
            if to != self.peer_id {
                let ghost pre = self.msgs@;
                self.msgs.push(
                    RaftMessage {
                        region_id: self.region.id,
                        from_peer: self.peer_id,
                        to_peer: to,
                        term,
                        epoch: self.region.epoch,
                        kind: MsgKind::VoteRequest {
                            last_log_index: last,
                            last_log_term: last_term,
                        },
                    },
                );
                proof {
                    assert(is_vote_request_from(
                        self.msgs@[pre.len() as int]@,
                        *old(self),
                        old(self).region@.peers[i as int].id,
                    ));
                    assert forall|j: int|
                        0 <= j < i + 1 && (#[trigger] old(self).region@.peers[j]).id != old(
                        self,
                    ).peer_id implies (exists|k: int|
                        old(self).msgs@.len() <= k < self.msgs@.len() && is_vote_request_from(
                            (#[trigger] self.msgs@[k])@,
                            *old(self),
                            old(self).region@.peers[j].id,
                        )) by {
                        if j < i {
                            let k = choose|k: int|
                                old(self).msgs@.len() <= k < pre.len() && is_vote_request_from(
                                    (#[trigger] pre[k])@,
                                    *old(self),
                                    old(self).region@.peers[j].id,
                                );
                            assert(self.msgs@[k] == pre[k]);
                        } else {
                            assert(old(self).msgs@.len() <= pre.len() < self.msgs@.len());
                        }
                    }
                }
            }
            i = i + 1;
        }
    }

    /// Applies one inbound protocol message. A stale epoch is rejected
    /// whatever the message holds; a stale term is ignored; a newer term
    /// turns this peer into a follower of it; then the message kind is
    /// handled. The region's epoch never changes here, the term and the
    /// commit index never decrease, and nothing is ever applied here.
    pub fn step(&mut self, msg: RaftMessage) -> (r: Result<(), RaftError>)
        requires
            old(self).wf(),
            msg@.region_id == old(self).region@.id,
            // a message rejected for its stale epoch needs no further shape;
            // the bounds below are asked only of messages that are processed
            !epoch_stale(msg@.epoch, old(self).region@.epoch) ==> msg@.term < u64::MAX,
            (msg@.kind matches crate::msg::MsgKindView::AppendRequest {
                prev_index,
                prev_term,
                entries,
                commit,
            } ==> ((!epoch_stale(msg@.epoch, old(self).region@.epoch) && msg@.term >= old(
                self,
            ).store.hard_state.term) ==> append_msg_wf(
                prev_index,
                prev_term,
                entries,
                msg@.term,
                old(self).store,
            ))),
            (msg@.kind matches crate::msg::MsgKindView::SnapshotTransfer { snap } ==> ((
            !epoch_stale(msg@.epoch, old(self).region@.epoch) && msg@.term >= old(
                self,
            ).store.hard_state.term) ==> snap.applied_index < u64::MAX && snap.applied_term
                <= msg@.term && snap.region.id == old(self).region@.id)),
        ensures
            final(self).wf(),
            epoch_stale(msg@.epoch, old(self).region@.epoch) <==> r == Err::<(), RaftError>(
                RaftError::StaleEpoch,
            ),
            epoch_stale(msg@.epoch, old(self).region@.epoch) ==> *final(self) == *old(self),
            msg@.term < old(self).store.hard_state.term ==> *final(self) == *old(self),
            final(self).store.hard_state.term >= old(self).store.hard_state.term,
            final(self).store.hard_state.commit >= old(self).store.hard_state.commit,
            final(self).store.apply_state.applied_index >= old(
                self,
            ).store.apply_state.applied_index,
            final(self).region@.epoch == old(self).region@.epoch || (msg@.kind matches
                crate::msg::MsgKindView::SnapshotTransfer { snap } && final(self).region@
                == snap.region),
            // what each accepted message kind effects, at this level:
            (msg@.kind matches crate::msg::MsgKindView::VoteRequest { last_log_index, last_log_term }
                ==> (step_handles(msg@, *old(self)) ==> (final(self).msgs@.len() == old(
                self,
            ).msgs@.len() + 1 && final(self).msgs@.last().to_peer == msg@.from_peer && final(self).msgs@.last().kind@ == (crate::msg::MsgKindView::VoteResponse {
                granted: vote_granted(
                    synced_vote(msg@.term, old(self).store),
                    old(self).store,
                    msg@.from_peer,
                    last_log_index,
                    last_log_term,
                ),
            }) && final(self).store.log() == old(self).store.log()))),
            (msg@.kind matches crate::msg::MsgKindView::VoteResponse { granted } ==> ((
            step_handles(msg@, *old(self)) && msg@.term == old(self).store.hard_state.term && old(
                self,
            ).role is Candidate && granted && ids_with(old(self).votes@, msg@.from_peer) > old(
                self,
            ).region@.peers.len() / 2) ==> final(self).role is Leader)),
            (msg@.kind matches crate::msg::MsgKindView::AppendRequest {
                prev_index,
                prev_term,
                entries,
                commit,
            } ==> (step_handles(msg@, *old(self)) ==> (final(self).role is Follower && final(self).leader_id == msg@.from_peer && final(self).msgs@.len() == old(self).msgs@.len() + 1
                && final(self).msgs@.last().to_peer == msg@.from_peer && final(self).msgs@.last().kind@ == (crate::msg::MsgKindView::AppendResponse {
                success: append_accepted(old(self).store, prev_index, prev_term),
                last_index: final(self).store.spec_last_index() as u64,
            }) && (!append_accepted(old(self).store, prev_index, prev_term) ==> final(self).store.log() == old(self).store.log()) && (append_accepted(
                old(self).store,
                prev_index,
                prev_term,
            ) ==> (forall|k: int|
                0 <= k < entries.len() ==> final(self).store.spec_term_at(prev_index + 1 + k)
                    == (#[trigger] entries[k]).term) && final(self).store.spec_last_index()
                >= prev_index + entries.len())))),
            (msg@.kind matches crate::msg::MsgKindView::Heartbeat { commit } ==> (step_handles(
                msg@,
                *old(self),
            ) ==> (final(self).role is Follower && final(self).leader_id == msg@.from_peer
                && final(self).election_elapsed == 0 && final(self).msgs@.len() == old(
                self,
            ).msgs@.len() + 1 && final(self).msgs@.last().to_peer == msg@.from_peer && final(self).msgs@.last().kind@ == (crate::msg::MsgKindView::HeartbeatResponse {
                last_index: old(self).store.spec_last_index() as u64,
            }) && final(self).store.log() == old(self).store.log() && final(self).store.hard_state.commit == (if commit > old(self).store.hard_state.commit {
                umin(commit, old(self).store.spec_last_index() as u64)
            } else {
                old(self).store.hard_state.commit
            })))),
            (msg@.kind matches crate::msg::MsgKindView::HeartbeatResponse { last_index } ==> ((
            step_handles(msg@, *old(self)) && msg@.term == old(self).store.hard_state.term && old(
                self,
            ).role is Leader && ids_with(old(self).hb_acks@, msg@.from_peer) >= old(
                self,
            ).region@.peers.len() / 2) ==> final(self).lease_until == (if old(self).clock
                < u64::MAX - old(self).lease_duration {
                old(self).clock + old(self).lease_duration
            } else {
                u64::MAX as int
            }))),
            (msg@.kind matches crate::msg::MsgKindView::SnapshotTransfer { snap } ==> (step_handles(
                msg@,
                *old(self),
            ) ==> ((snap.applied_index >= old(self).store.hard_state.commit ==> final(self).region@
                == snap.region && final(self).role is Follower && final(self).leader_id
                == msg@.from_peer && final(self).store.apply_state.applied_index
                == snap.applied_index && final(self).store.hard_state.commit == snap.applied_index
                && (final(self).pending_snapshot matches Some(st) && st@ == snap)) && (
            snap.applied_index < old(self).store.hard_state.commit ==> final(self).store.log()
                == old(self).store.log() && final(self).store.apply_state == old(
                self,
            ).store.apply_state && final(self).store.hard_state.commit == old(
                self,
            ).store.hard_state.commit)))),
    {
        if check_epoch_stale(&msg.epoch, &self.region.epoch) {
            return Err(RaftError::StaleEpoch);
        }
        let RaftMessage { region_id: _, from_peer, to_peer: _, term: msg_term, epoch: _, kind } =
            msg;
        if msg_term < self.store.hard_state.term {
            return Ok(());
        }
        if msg_term > self.store.hard_state.term {
            self.store.set_term_vote(msg_term, 0);
            self.role = Role::Follower;
            self.leader_id = 0;
            self.votes = Vec::new();
            self.progress = Vec::new();
            self.lease_until = 0;
        }
        let ghost mid = *self;
        proof {
            assert(mid.store.entries@ == old(self).store.entries@);
            assert(mid.store.apply_state == old(self).store.apply_state);
            assert(mid.store.hard_state.commit == old(self).store.hard_state.commit);
            assert(mid.store.hard_state.vote == synced_vote(msg@.term, old(self).store));
        }
        match kind {
            MsgKind::VoteRequest { last_log_index, last_log_term } => {
                self.handle_vote_request(from_peer, last_log_index, last_log_term);
                proof {
                    assert(vote_granted(
                        mid.store.hard_state.vote,
                        mid.store,
                        from_peer,
                        last_log_index,
                        last_log_term,
                    ) == vote_granted(
                        synced_vote(msg@.term, old(self).store),
                        old(self).store,
                        from_peer,
                        last_log_index,
                        last_log_term,
                    ));
                }
            },
            MsgKind::VoteResponse { granted } => {
                self.handle_vote_response(from_peer, granted);
            },
            MsgKind::AppendRequest { prev_index, prev_term, entries, commit } => {
                proof {
                    let ents = log_view(entries@);
                    assert forall|k: int|
                        0 <= k < ents.len() && prev_index + 1 + k
                            <= self.store.hard_state.commit && self.store.spec_first_index()
                            <= prev_index + 1 + k <= self.store.spec_last_index() implies
                        self.store.spec_term_at(prev_index + 1 + k) == (#[trigger] ents[k]).term by {
                        assert(old(self).store.spec_term_at(prev_index + 1 + k) == ents[k].term);
                    }
                    assert(append_msg_wf(prev_index, prev_term, ents, msg_term, self.store));
                }
                self.handle_append_request(
                    from_peer,
                    msg_term,
                    prev_index,
                    prev_term,
                    entries,
                    commit,
                );
                proof {
                    assert(append_accepted(mid.store, prev_index, prev_term) == append_accepted(
                        old(self).store,
                        prev_index,
                        prev_term,
                    ));
                }
            },
            MsgKind::AppendResponse { success, last_index } => {
                self.handle_append_response(from_peer, success, last_index);
            },
            MsgKind::Heartbeat { commit } => {
                self.handle_heartbeat(from_peer, commit);
            },
            MsgKind::HeartbeatResponse { last_index: _ } => {
                self.handle_heartbeat_response(from_peer);
            },
            MsgKind::SnapshotTransfer { snap } => {
                self.handle_snapshot(from_peer, msg_term, snap);
            },
        }
        Ok(())
    }

    /// The term of the newest log entry (the truncation point's term when
    /// the log is empty).
    fn last_log_term(&self) -> (r: u64)
        requires
            self.wf(),
        ensures
            r == self.store.spec_term_at(self.store.spec_last_index()),
    {
        let last = self.store.last_index();
        match self.store.term(last) {
            Some(t) => t,
            None => 0,
        }
    }

    /// Answers a vote request: granted exactly when no vote was cast this
    /// term (or it already went to this candidate) and the candidate's log
    /// is at least as up to date as ours.
    pub fn handle_vote_request(&mut self, from: u64, last_log_index: u64, last_log_term: u64)
        requires
            old(self).wf(),
        ensures
            final(self).wf(),
            final(self).region@ == old(self).region@,
            final(self).store.log() == old(self).store.log(),
            final(self).store.apply_state == old(self).store.apply_state,
            final(self).store.hard_state.term == old(self).store.hard_state.term,
            final(self).store.hard_state.commit == old(self).store.hard_state.commit,
            final(self).role == old(self).role,
            final(self).store.hard_state.vote == (if vote_granted(
                old(self).store.hard_state.vote,
                old(self).store,
                from,
                last_log_index,
                last_log_term,
            ) {
                from
            } else {
                old(self).store.hard_state.vote
            }),
            final(self).msgs@ == old(self).msgs@.push(final(self).msgs@.last()),
            final(self).msgs@.last().kind@ == (crate::msg::MsgKindView::VoteResponse {
                granted: vote_granted(
                    old(self).store.hard_state.vote,
                    old(self).store,
                    from,
                    last_log_index,
                    last_log_term,
                ),
            }),
            final(self).msgs@.last().to_peer == from,
    {
        let mine = self.last_log_term();
        let last = self.store.last_index();
        let up_to_date = last_log_term > mine || (last_log_term == mine && last_log_index >= last);
        let vote = self.store.hard_state.vote;
        let granted = (vote == 0 || vote == from) && up_to_date;
        if granted {
            let term = self.store.hard_state.term;
            self.store.set_term_vote(term, from);
            self.election_elapsed = 0;
        }
        self.msgs.push(
            RaftMessage {
                region_id: self.region.id,
                from_peer: self.peer_id,
                to_peer: from,
                term: self.store.hard_state.term,
                epoch: self.region.epoch,
                kind: MsgKind::VoteResponse { granted },
            },
        );
    }

    /// Whether a peer id is present in a vector of ids.
    fn id_present(ids: &Vec<u64>, id: u64) -> (r: bool)
        ensures
            r == exists|i: int| 0 <= i < ids@.len() && ids@[i] == id,
    {
        let mut i: usize = 0;
        while i < ids.len()
            invariant
                i <= ids@.len(),
                forall|j: int| 0 <= j < i ==> ids@[j] != id,
            decreases ids@.len() - i,
        {
            if ids[i] == id {
                proof {
                    assert(ids@[i as int] == id);
                }
                return true;
            }
            i = i + 1;
        }
        false
    }

    /// Records a vote response; on a majority of grants the candidate
    /// becomes leader of its term.
    pub fn handle_vote_response(&mut self, from: u64, granted: bool)
        requires
            old(self).wf(),
        ensures
            final(self).wf(),
            final(self).region@ == old(self).region@,
            final(self).store.log() == old(self).store.log(),
            final(self).store.apply_state == old(self).store.apply_state,
            final(self).store.hard_state == old(self).store.hard_state,
            final(self).role == old(self).role || (old(self).role is Candidate
                && final(self).role is Leader),
            (final(self).role is Leader && old(self).role is Candidate)
                ==> (2 * final(self).votes@.len() > final(self).region@.peers.len()
                && final(self).leader_id == final(self).peer_id
                && final(self).progress@.len() == final(self).region@.peers.len()),
            // the obligation direction: enough distinct grants make a leader
            (old(self).role is Candidate && granted && ids_with(old(self).votes@, from) > old(
                self,
            ).region@.peers.len() / 2) ==> final(self).role is Leader,
    {
        if !matches!(self.role, Role::Candidate) || !granted {
            return ;
        }
        if !Self::id_present(&self.votes, from) {
            self.votes.push(from);
            proof {
                assert forall|i: int, j: int|
                    0 <= i < j < self.votes@.len() implies #[trigger] self.votes@[i]
                    != #[trigger] self.votes@[j] by {
                    if j < self.votes@.len() - 1 {
                        assert(self.votes@[i] == old(self).votes@[i]);
                        assert(self.votes@[j] == old(self).votes@[j]);
                    } else {
                        assert(self.votes@[j] == from);
                        assert(self.votes@[i] == old(self).votes@[i]);
                    }
                }
            }
        }
        let n_votes = self.votes.len();
        if n_votes > self.region.peers.len() / 2 {
            proof {
                assert(2 * self.votes@.len() > self.region@.peers.len());
            }
            self.become_leader();
        }
    }

    /// Takes leadership: progress for every replica starts at the end of
    /// our log, and an initial lease begins.
    fn become_leader(&mut self)
        requires
            old(self).wf(),
        ensures
            final(self).wf(),
            final(self).region@ == old(self).region@,
            final(self).store == old(self).store,
            final(self).role is Leader,
            final(self).leader_id == final(self).peer_id,
            final(self).votes@ == old(self).votes@,
            final(self).progress@.len() == final(self).region@.peers.len(),
            forall|i: int|
                0 <= i < final(self).progress@.len() ==> (#[trigger] final(self).progress@[i])
                    == (Progress {
                    peer_id: final(self).region@.peers[i].id,
                    matched: if final(self).region@.peers[i].id == final(self).peer_id {
                        old(self).store.spec_last_index() as u64
                    } else {
                        0
                    },
                    next_index: (old(self).store.spec_last_index() + 1) as u64,
                }),
    {
        let last = self.store.last_index();
        let mut progress: Vec<Progress> = Vec::new();
        let mut i: usize = 0;
        while i < self.region.peers.len()
            invariant
                i <= self.region.peers@.len(),
                *self == *old(self),
                last == old(self).store.spec_last_index(),
                old(self).wf(),
                progress@.len() == i,
                forall|j: int|
                    0 <= j < i ==> (#[trigger] progress@[j]) == (Progress {
                        peer_id: old(self).region@.peers[j].id,
                        matched: if old(self).region@.peers[j].id == old(self).peer_id {
                            last
                        } else {
                            0
                        },
                        next_index: (last + 1) as u64,
                    }),
            decreases self.region.peers@.len() - i,
        {
            let pid = self.region.peers[i].id;
            progress.push(
                Progress {
                    peer_id: pid,
                    matched: if pid == self.peer_id {
                        last
                    } else {
                        0
                    },
                    next_index: last + 1,
                },
            );
            i = i + 1;
        }
        self.progress = progress;
        self.role = Role::Leader;
        self.leader_id = self.peer_id;
        self.hb_acks = Vec::new();
        self.heartbeat_elapsed = 0;
        let until = if self.clock < u64::MAX - self.lease_duration {
            self.clock + self.lease_duration
        } else {
            u64::MAX
        };
        self.lease_until = until;
    }

    /// Handles one replicated append from the leader of our term: we
    /// follow that leader, hand the entries to storage, and answer with
    /// whether our log matched at the attach point and how far it reaches
    /// now.
    pub fn handle_append_request(
        &mut self,
        from: u64,
        msg_term: u64,
        prev_index: u64,
        prev_term: u64,
        entries: Vec<Entry>,
        commit: u64,
    )
        requires
            old(self).wf(),
            msg_term == old(self).store.hard_state.term,
            append_msg_wf(prev_index, prev_term, log_view(entries@), msg_term, old(self).store),
        ensures
            final(self).wf(),
            final(self).region@ == old(self).region@,
            final(self).role is Follower,
            final(self).leader_id == from,
            final(self).election_elapsed == 0,
            final(self).store.apply_state == old(self).store.apply_state,
            final(self).store.hard_state.term == old(self).store.hard_state.term,
            final(self).store.hard_state.commit >= old(self).store.hard_state.commit,
            final(self).msgs@.len() == old(self).msgs@.len() + 1,
            final(self).msgs@.last().to_peer == from,
            final(self).msgs@.last().kind@ == (crate::msg::MsgKindView::AppendResponse {
                success: append_accepted(old(self).store, prev_index, prev_term),
                last_index: final(self).store.spec_last_index() as u64,
            }),
            !append_accepted(old(self).store, prev_index, prev_term) ==> final(self).store.log()
                == old(self).store.log(),
            // an accepted append leaves the log carrying the leader's terms
            // over the whole message, reaching at least its end, and moves
            // commit to the leader's, capped at the last new entry
            append_accepted(old(self).store, prev_index, prev_term) ==> {
                &&& forall|k: int|
                    0 <= k < entries@.len() ==> final(self).store.spec_term_at(prev_index + 1 + k)
                        == (#[trigger] log_view(entries@)[k]).term
                &&& final(self).store.spec_last_index() >= prev_index + entries@.len()
                &&& (final(self).store.spec_last_index() == old(self).store.spec_last_index()
                    || final(self).store.spec_last_index() == prev_index + entries@.len())
                &&& final(self).store.hard_state.commit == (if old(self).store.hard_state.commit
                    >= umin(commit, (prev_index + entries@.len()) as u64) {
                    old(self).store.hard_state.commit
                } else {
                    umin(commit, (prev_index + entries@.len()) as u64)
                })
            },
    {
        self.role = Role::Follower;
        self.leader_id = from;
        self.election_elapsed = 0;
        self.progress = Vec::new();
        let ghost pre = self.store;
        let r = self.store.maybe_append(prev_index, prev_term, &entries, commit);
        proof {
            if let Some(c) = r {
                let ents = log_view(entries@);
                let ti = pre.apply_state.truncated_index as int;
                if c == ents.len() {
                    if ents.len() > 0 {
                        assert(prev_index + 1 + (ents.len() - 1)
                            <= pre.spec_last_index()) by {
                            assert(pre.spec_term_at(prev_index + 1 + (ents.len() - 1))
                                == (log_view(entries@)[ents.len() - 1]).term);
                        }
                    }
                    assert(self.store.log() == pre.log());
                    assert(self.store.apply_state == pre.apply_state);
                    assert forall|k: int| 0 <= k < ents.len() implies self.store.spec_term_at(
                        prev_index + 1 + k,
                    ) == (#[trigger] ents[k]).term by {
                        assert(pre.spec_term_at(prev_index + 1 + k) == ents[k].term);
                        assert(self.store.spec_term_at(prev_index + 1 + k) == pre.spec_term_at(
                            prev_index + 1 + k,
                        ));
                    }
                } else {
                    let keep = prev_index + c - ti;
                    assert(self.store.apply_state == pre.apply_state);
                    assert(self.store.log() == pre.log().take(keep) + ents.skip(c as int));
                    if c > 0 {
                        assert(prev_index + c <= pre.spec_last_index()) by {
                            assert(pre.spec_term_at(prev_index + 1 + (c - 1)) == (ents[c
                                - 1]).term);
                        }
                    }
                    assert(keep <= pre.log().len());
                    assert(self.store.log().len() == keep + (ents.len() - c));
                    assert forall|k: int| 0 <= k < ents.len() implies self.store.spec_term_at(
                        prev_index + 1 + k,
                    ) == (#[trigger] ents[k]).term by {
                        let p = prev_index + k - ti;
                        if k < c {
                            assert(self.store.log()[p] == pre.log().take(keep)[p]);
                            assert(pre.log().take(keep)[p] == pre.log()[p]);
                            assert(pre.spec_term_at(prev_index + 1 + k) == ents[k].term);
                            assert(pre.spec_term_at(prev_index + 1 + k) == pre.log()[p].term);
                            assert(self.store.spec_term_at(prev_index + 1 + k)
                                == self.store.log()[p].term);
                        } else {
                            assert(self.store.log()[p] == ents.skip(c as int)[k - c]);
                            assert(ents.skip(c as int)[k - c] == ents[k]);
                            assert(self.store.spec_term_at(prev_index + 1 + k)
                                == self.store.log()[p].term);
                        }
                    }
                }
            }
        }
        let last = self.store.last_index();
        if self.persisted_index > last {
            self.persisted_index = last;
        }
        self.msgs.push(
            RaftMessage {
                region_id: self.region.id,
                from_peer: self.peer_id,
                to_peer: from,
                term: self.store.hard_state.term,
                epoch: self.region.epoch,
                kind: MsgKind::AppendResponse { success: r.is_some(), last_index: last },
            },
        );
    }

    /// Handles a follower's answer to a replicated append: on success its
    /// progress advances and commit may advance to an index a majority has
    /// matched under the current term; on rejection the leader backs up
    /// one step and retries from earlier in the log.
    pub fn handle_append_response(&mut self, from: u64, success: bool, last_index: u64)
        requires
            old(self).wf(),
        ensures
            final(self).wf(),
            final(self).region@ == old(self).region@,
            final(self).store.log() == old(self).store.log(),
            final(self).store.apply_state == old(self).store.apply_state,
            final(self).store.hard_state.term == old(self).store.hard_state.term,
            final(self).store.hard_state.vote == old(self).store.hard_state.vote,
            final(self).store.hard_state.commit >= old(self).store.hard_state.commit,
            final(self).store.hard_state.commit > old(self).store.hard_state.commit ==> 2
                * count_at_least(final(self).progress@, final(self).store.hard_state.commit)
                > final(self).region@.peers.len() && final(self).store.spec_term_at(
                final(self).store.hard_state.commit as int,
            ) == final(self).store.hard_state.term,
            // the obligation direction: a success from a tracked replica
            // raises its matched index, and commit then reaches every
            // majority-matched index of the current term
            (old(self).role is Leader && success && (exists|j: int|
                0 <= j < old(self).progress@.len() && (#[trigger] old(
                    self,
                ).progress@[j]).peer_id == from)) ==> {
                &&& exists|j: int|
                    0 <= j < final(self).progress@.len()
                        && (#[trigger] final(self).progress@[j]).peer_id == from
                        && final(self).progress@[j].matched >= umin(
                        last_index,
                        old(self).store.spec_last_index() as u64,
                    )
                &&& forall|j: int|
                    0 <= j < final(self).progress@.len() ==> (commit_obliged(
                        *final(self),
                        (#[trigger] final(self).progress@[j]).matched,
                    ) ==> final(self).store.hard_state.commit >= final(self).progress@[j].matched)
            },
    {
        if !matches!(self.role, Role::Leader) {
            return ;
        }
        let mut i: usize = 0;
        let n = self.progress.len();
        while i < n
            invariant
                n == self.progress@.len(),
                i <= n,
                *self == *old(self),
                old(self).wf(),
                forall|j: int| 0 <= j < i ==> (#[trigger] self.progress@[j]).peer_id != from,
            decreases n - i,
        {
            if self.progress[i].peer_id == from {
                let old_p = self.progress[i];
                let last = self.store.last_index();
                if success {
                    let m = if last_index < last {
                        last_index
                    } else {
                        last
                    };
                    let matched = if m > old_p.matched {
                        m
                    } else {
                        old_p.matched
                    };
                    let np = Progress { peer_id: old_p.peer_id, matched, next_index: matched + 1 };
                    let slot = &mut self.progress[i];
                    *slot = np;
                    proof {
                        assert(self.progress@ == old(self).progress@.update(i as int, np));
                    }
                    let ghost mid = *self;
                    self.maybe_commit();
                    proof {
                        assert forall|j: int|
                            0 <= j < self.progress@.len() implies (commit_obliged(
                            *self,
                            (#[trigger] self.progress@[j]).matched,
                        ) ==> self.store.hard_state.commit >= self.progress@[j].matched) by {
                            assert(self.progress@ == mid.progress@);
                            if commit_obliged(*self, self.progress@[j].matched) {
                                assert(self.store.log() == mid.store.log());
                                assert(self.store.apply_state == mid.store.apply_state);
                                assert(self.store.log().len() == mid.store.log().len());
                                assert(commit_obliged(mid, mid.progress@[j].matched));
                            }
                        }
                        assert(self.progress@[i as int].peer_id == from);
                        assert(self.progress@[i as int].matched >= umin(
                            last_index,
                            old(self).store.spec_last_index() as u64,
                        ));
                    }
                } else {
                    let nn = if old_p.next_index > 1 {
                        old_p.next_index - 1
                    } else {
                        1
                    };
                    let np = Progress {
                        peer_id: old_p.peer_id,
                        matched: old_p.matched,
                        next_index: nn,
                    };
                    let slot = &mut self.progress[i];
                    *slot = np;
                    proof {
                        assert(self.progress@ == old(self).progress@.update(i as int, np));
                    }
                }
                return ;
            }
            i = i + 1;
        }
    }

    /// Advances commit to the highest index a majority of replicas has
    /// matched, provided that index carries the current term; a leader
    /// never commits an entry of an earlier term by counting.
    fn maybe_commit(&mut self)
        requires
            old(self).wf(),
        ensures
            final(self).wf(),
            *final(self) == (PeerFsm { store: final(self).store, ..*old(self) }),
            final(self).store.log() == old(self).store.log(),
            final(self).store.apply_state == old(self).store.apply_state,
            final(self).store.hard_state.term == old(self).store.hard_state.term,
            final(self).store.hard_state.vote == old(self).store.hard_state.vote,
            final(self).store.hard_state.commit >= old(self).store.hard_state.commit,
            final(self).store.hard_state.commit > old(self).store.hard_state.commit ==> 2
                * count_at_least(final(self).progress@, final(self).store.hard_state.commit)
                > final(self).region@.peers.len() && final(self).store.spec_term_at(
                final(self).store.hard_state.commit as int,
            ) == final(self).store.hard_state.term,
            // the obligation direction: commit reaches every matched index a
            // majority holds under the current term
            forall|j: int|
                0 <= j < old(self).progress@.len() ==> (commit_obliged(
                    *old(self),
                    (#[trigger] old(self).progress@[j]).matched,
                ) ==> final(self).store.hard_state.commit >= old(self).progress@[j].matched),
    {
        let mut best: u64 = self.store.hard_state.commit;
        let ghost old_commit = self.store.hard_state.commit;
        let mut i: usize = 0;
        let n = self.progress.len();
        while i < n
            invariant
                n == self.progress@.len(),
                i <= n,
                *self == *old(self),
                old(self).wf(),
                best >= old_commit,
                old_commit == old(self).store.hard_state.commit,
                best <= old(self).store.spec_last_index(),
                best > old_commit ==> 2 * count_at_least(self.progress@, best)
                    > self.region@.peers.len() && self.store.spec_term_at(best as int)
                    == self.store.hard_state.term,
                forall|j: int|
                    0 <= j < i ==> (commit_obliged(
                        *old(self),
                        (#[trigger] old(self).progress@[j]).matched,
                    ) ==> best >= old(self).progress@[j].matched),
            decreases n - i,
        {
            let m = self.progress[i].matched;
            if m > best {
                match self.store.term(m) {
                    Some(t) => {
                        if t == self.store.hard_state.term {
                            let cnt = self.count_matched(m);
                            if cnt > self.region.peers.len() / 2 {
                                proof {
                                    assert(2 * count_at_least(self.progress@, m)
                                        > self.region@.peers.len());
                                }
                                best = m;
                            } else {
                                proof {
                                    assert(2 * count_at_least(self.progress@, m)
                                        <= self.region@.peers.len());
                                }
                            }
                        }
                    },
                    None => {},
                }
            }
            i = i + 1;
        }
        if best > self.store.hard_state.commit {
            self.store.set_commit(best);
        }
    }

    /// Counts the replicas whose matched index is at least `m`.
    fn count_matched(&self, m: u64) -> (r: usize)
        ensures
            r == count_at_least(self.progress@, m),
    {
        let mut cnt: usize = 0;
        let mut j: usize = 0;
        proof {
            assert(self.progress@.take(0) =~= Seq::<Progress>::empty());
        }
        while j < self.progress.len()
            invariant
                j <= self.progress@.len(),
                cnt <= j,
                cnt == count_at_least(self.progress@.take(j as int), m),
            decreases self.progress@.len() - j,
        {
            proof {
                assert(self.progress@.take(j + 1).drop_last() =~= self.progress@.take(j as int));
                assert(self.progress@.take(j + 1).last() == self.progress@[j as int]);
            }
            if self.progress[j].matched >= m {
                cnt = cnt + 1;
            }
            j = j + 1;
        }
        proof {
            assert(self.progress@.take(self.progress@.len() as int) =~= self.progress@);
        }
        cnt
    }

    /// Handles a leader's heartbeat: we follow it, reset the election
    /// clock, adopt the (safe, capped) commit index, and answer.
    pub fn handle_heartbeat(&mut self, from: u64, commit: u64)
        requires
            old(self).wf(),
        ensures
            final(self).wf(),
            final(self).region@ == old(self).region@,
            final(self).role is Follower,
            final(self).leader_id == from,
            final(self).election_elapsed == 0,
            final(self).store.log() == old(self).store.log(),
            final(self).store.apply_state == old(self).store.apply_state,
            final(self).store.hard_state.term == old(self).store.hard_state.term,
            final(self).store.hard_state.commit == if commit > old(self).store.hard_state.commit {
                umin(commit, old(self).store.spec_last_index() as u64)
            } else {
                old(self).store.hard_state.commit
            },
            final(self).msgs@.len() == old(self).msgs@.len() + 1,
            final(self).msgs@.last().to_peer == from,
            final(self).msgs@.last().kind@ == (crate::msg::MsgKindView::HeartbeatResponse {
                last_index: old(self).store.spec_last_index() as u64,
            }),
    {
        self.role = Role::Follower;
        self.leader_id = from;
        self.election_elapsed = 0;
        self.progress = Vec::new();
        let last = self.store.last_index();
        if commit > self.store.hard_state.commit {
            let cap = if commit < last {
                commit
            } else {
                last
            };
            if cap > self.store.hard_state.commit {
                self.store.set_commit(cap);
            }
        }
        self.msgs.push(
            RaftMessage {
                region_id: self.region.id,
                from_peer: self.peer_id,
                to_peer: from,
                term: self.store.hard_state.term,
                epoch: self.region.epoch,
                kind: MsgKind::HeartbeatResponse { last_index: last },
            },
        );
    }

    /// Records a heartbeat acknowledgement; when a majority of replicas
    /// (ourselves included) answered within the round, the lease renews
    /// for `lease_duration` ticks from now.
    pub fn handle_heartbeat_response(&mut self, from: u64)
        requires
            old(self).wf(),
        ensures
            final(self).wf(),
            final(self).region@ == old(self).region@,
            final(self).store == old(self).store,
            final(self).lease_until >= old(self).lease_until || final(self).lease_until
                >= final(self).clock,
            final(self).lease_until != old(self).lease_until ==> old(self).role is Leader
                && ids_with(old(self).hb_acks@, from) >= old(self).region@.peers.len() / 2,
            // the obligation direction: a majority of acknowledgements renews
            (old(self).role is Leader && ids_with(old(self).hb_acks@, from) >= old(
                self,
            ).region@.peers.len() / 2) ==> final(self).lease_until == (if old(self).clock
                < u64::MAX - old(self).lease_duration {
                old(self).clock + old(self).lease_duration
            } else {
                u64::MAX as int
            }),
    {
        if !matches!(self.role, Role::Leader) {
            return ;
        }
        if !Self::id_present(&self.hb_acks, from) {
            self.hb_acks.push(from);
        }
        let acks = self.hb_acks.len();
        if acks >= self.region.peers.len() / 2 {
            let until = if self.clock < u64::MAX - self.lease_duration {
                self.clock + self.lease_duration
            } else {
                u64::MAX
            };
            self.lease_until = until;
            self.hb_acks = Vec::new();
        }
    }

    /// Installs a snapshot from the leader: storage metadata moves to the
    /// snapshot's applied point, the region descriptor is replaced by the
    /// snapshot's, and the snapshot itself is staged for the apply side to
    /// install. A snapshot behind our commit is ignored.
    pub fn handle_snapshot(&mut self, from: u64, msg_term: u64, snap: Snapshot)
        requires
            old(self).wf(),
            msg_term == old(self).store.hard_state.term,
            snap@.applied_term <= msg_term,
            snap@.applied_index < u64::MAX,
            snap@.region.id == old(self).region@.id,
        ensures
            final(self).wf(),
            final(self).store.hard_state.term == old(self).store.hard_state.term,
            snap@.applied_index < old(self).store.hard_state.commit ==> *final(self) == *old(
                self,
            ),
            snap@.applied_index >= old(self).store.hard_state.commit ==> {
                &&& final(self).region@ == snap@.region
                &&& final(self).role is Follower
                &&& final(self).leader_id == from
                &&& final(self).store.entries@.len() == 0
                &&& final(self).store.apply_state.applied_index == snap@.applied_index
                &&& final(self).store.apply_state.applied_term == snap@.applied_term
                &&& final(self).store.hard_state.commit == snap@.applied_index
                &&& final(self).pending_snapshot matches Some(s) && s@ == snap@
                &&& final(self).committed_cursor == snap@.applied_index
                &&& final(self).persisted_index == snap@.applied_index
            },
    {
        if snap.applied_index < self.store.hard_state.commit {
            return ;
        }
        self.store.apply_snapshot(&snap);
        self.region = snap.region.clone_region();
        self.role = Role::Follower;
        self.leader_id = from;
        self.election_elapsed = 0;
        self.progress = Vec::new();
        self.committed_cursor = snap.applied_index;
        self.persisted_index = snap.applied_index;
        self.pending_snapshot = Some(snap);
    }

    /// Builds the replicated-append message for the replica tracked at
    /// `i`: the entries from its next index through the end of our log,
    /// attached after `(next - 1, term(next - 1))`. Fails with
    /// `LogCompacted` when that suffix was truncated away, in which case
    /// the replica needs a snapshot instead.
    pub fn send_append(&self, i: usize) -> (r: Result<RaftMessage, RaftError>)
        requires
            self.wf(),
            self.role is Leader,
            i < self.progress@.len(),
        ensures
            (r is Err) == (self.progress@[i as int].next_index
                <= self.store.apply_state.truncated_index),
            r is Err ==> r == Err::<RaftMessage, RaftError>(RaftError::LogCompacted),
            r matches Ok(m) ==> {
                let p = self.progress@[i as int];
                &&& m@.region_id == self.region@.id
                &&& m@.from_peer == self.peer_id
                &&& m@.to_peer == p.peer_id
                &&& m@.term == self.store.hard_state.term
                &&& m@.epoch == self.region@.epoch
                &&& m@.kind == (crate::msg::MsgKindView::AppendRequest {
                    prev_index: (p.next_index - 1) as u64,
                    prev_term: self.store.spec_term_at(p.next_index - 1),
                    entries: self.store.log().skip(
                        p.next_index - self.store.apply_state.truncated_index - 1,
                    ),
                    commit: self.store.hard_state.commit,
                })
            },
    {
        let p = self.progress[i];
        if p.next_index <= self.store.apply_state.truncated_index {
            return Err(RaftError::LogCompacted);
        }
        let prev = p.next_index - 1;
        let prev_term = match self.store.term(prev) {
            Some(t) => t,
            None => 0,
        };
        let from_pos64: u64 = p.next_index - self.store.apply_state.truncated_index - 1;
        let n: usize = self.store.entries.len();
        proof {
            assert(from_pos64 <= n as u64);
        }
        let from_pos: usize = from_pos64 as usize;
        let entries = clone_entries_range(&self.store.entries, from_pos, n);
        proof {
            assert(log_view(self.store.entries@).subrange(from_pos as int, n as int)
                =~= self.store.log().skip(from_pos as int));
        }
        Ok(
            RaftMessage {
                region_id: self.region.id,
                from_peer: self.peer_id,
                to_peer: p.peer_id,
                term: self.store.hard_state.term,
                epoch: self.region.epoch,
                kind: MsgKind::AppendRequest {
                    prev_index: prev,
                    prev_term,
                    entries,
                    commit: self.store.hard_state.commit,
                },
            },
        )
    }

    /// Records that a snapshot through `idx` went out to the replica
    /// tracked at `i`: replication to it resumes right after the snapshot.
    pub fn record_snapshot_sent(&mut self, i: usize, idx: u64)
        requires
            old(self).wf(),
            i < old(self).progress@.len(),
            idx <= old(self).store.spec_last_index(),
        ensures
            final(self).wf(),
            *final(self) == (PeerFsm { progress: final(self).progress, ..*old(self) }),
            final(self).progress@ == old(self).progress@.update(
                i as int,
                Progress {
                    peer_id: old(self).progress@[i as int].peer_id,
                    matched: idx,
                    next_index: (idx + 1) as u64,
                },
            ),
    {
        let old_p = self.progress[i];
        let np = Progress { peer_id: old_p.peer_id, matched: idx, next_index: idx + 1 };
        let slot = &mut self.progress[i];
        *slot = np;
    }

    /// Drains the pending outputs of the steps since the last call: the
    /// log suffix that still needs to be persisted, the staged outbound
    /// messages (to release only once that suffix is durable), the newly
    /// committed entries for the apply state machine, and a staged
    /// snapshot if one was accepted.
    pub fn collect_ready(&mut self) -> (r: Ready)
        requires
            old(self).wf(),
        ensures
            final(self).wf(),
            *final(self) == (PeerFsm {
                msgs: final(self).msgs,
                pending_snapshot: None,
                persisted_index: final(self).persisted_index,
                committed_cursor: final(self).committed_cursor,
                ..*old(self)
            }),
            final(self).msgs@.len() == 0,
            final(self).persisted_index == old(self).store.spec_last_index(),
            final(self).committed_cursor == old(self).store.hard_state.commit,
            r.messages@ == old(self).msgs@,
            log_view(r.entries_to_persist@) == old(self).store.log().skip(
                old(self).persisted_index - old(self).store.apply_state.truncated_index,
            ),
            log_view(r.committed_entries@) == old(self).store.log().subrange(
                old(self).committed_cursor - old(self).store.apply_state.truncated_index,
                old(self).store.hard_state.commit - old(self).store.apply_state.truncated_index,
            ),
            r.snapshot == old(self).pending_snapshot,
    {
        let trunc = self.store.apply_state.truncated_index;
        let n: usize = self.store.entries.len();
        let ppos64: u64 = self.persisted_index - trunc;
        proof {
            assert(ppos64 <= n as u64);
        }
        let entries_to_persist = clone_entries_range(&self.store.entries, ppos64 as usize, n);
        self.persisted_index = self.store.last_index();
        let commit = self.store.hard_state.commit;
        let cfrom64: u64 = self.committed_cursor - trunc;
        let cto64: u64 = commit - trunc;
        proof {
            assert(cto64 <= n as u64);
            assert(cfrom64 <= cto64);
        }
        let committed_entries = clone_entries_range(
            &self.store.entries,
            cfrom64 as usize,
            cto64 as usize,
        );
        self.committed_cursor = commit;
        let mut messages: Vec<RaftMessage> = Vec::new();
        core::mem::swap(&mut messages, &mut self.msgs);
        let mut snapshot: Option<Snapshot> = None;
        core::mem::swap(&mut snapshot, &mut self.pending_snapshot);
        proof {
            assert(log_view(entries_to_persist@) =~= old(self).store.log().skip(ppos64 as int));
        }
        Ready { entries_to_persist, messages, committed_entries, snapshot }
    }

    /// Records that the apply side finished through `idx` (of term
    /// `term`), releasing that many pending proposals; a finished
    /// administrative command returns the peer to its normal state.
    pub fn on_apply_res(&mut self, idx: u64, term: u64, acked: usize, admin_done: bool)
        requires
            old(self).wf(),
            old(self).store.apply_state.applied_index <= idx <= old(self).store.hard_state.commit,
            term == old(self).store.spec_term_at(idx as int),
        ensures
            final(self).wf(),
            final(self).store.apply_state.applied_index == idx,
            final(self).store.hard_state == old(self).store.hard_state,
            final(self).store.log() == old(self).store.log(),
            final(self).region@ == old(self).region@,
            final(self).pending_proposals == if acked > old(self).pending_proposals {
                0int
            } else {
                old(self).pending_proposals - acked
            },
            admin_done ==> final(self).sub_state is Normal,
    {
        self.store.advance_applied(idx, term);
        if acked > self.pending_proposals {
            self.pending_proposals = 0;
        } else {
            self.pending_proposals = self.pending_proposals - acked;
        }
        if admin_done {
            self.sub_state = SubState::Normal;
        }
    }

    /// Compacts the log through `to_index`, which must already be applied,
    /// handed to the apply side, and durable.
    pub fn compact_log(&mut self, to_index: u64)
        requires
            old(self).wf(),
            old(self).store.apply_state.truncated_index < to_index,
            to_index <= old(self).store.apply_state.applied_index,
            to_index <= old(self).committed_cursor,
            to_index <= old(self).persisted_index,
        ensures
            final(self).wf(),
            final(self).store.log() == old(self).store.log().skip(
                to_index - old(self).store.apply_state.truncated_index,
            ),
            final(self).store.apply_state.truncated_index == to_index,
            final(self).store.hard_state == old(self).store.hard_state,
            final(self).region@ == old(self).region@,
    {
        self.store.compact(to_index);
    }

    /// Tombstones this peer: terminal state, queued work discarded.
    pub fn destroy(&mut self)
        requires
            old(self).wf(),
        ensures
            final(self).wf(),
            final(self).sub_state is Destroying,
            final(self).msgs@.len() == 0,
            final(self).pending_snapshot is None,
            final(self).store == old(self).store,
    {
        self.sub_state = SubState::Destroying;
        self.msgs = Vec::new();
        self.pending_snapshot = None;
    }
}

/// A linearizable local read on a leader holding a valid lease: answered
/// from the applied state without a log round-trip. Without the lease the
/// caller must take the read-index path instead: obtain `read_index()`,
/// wait until apply reaches it, and read the applied state then — both
/// paths read the same applied state of this replica.
pub fn lease_read(p: &PeerFsm, a: &ApplyFsm, key: &Vec<u8>) -> (r: Result<
    Option<Vec<u8>>,
    RaftError,
>)
    ensures
        (r is Err) == !(p.role is Leader && p.clock < p.lease_until && p.sub_state is Normal),
        !(p.role is Leader) ==> r == Err::<Option<Vec<u8>>, RaftError>(RaftError::NotLeader),
        r matches Ok(v) ==> match v {
            Some(b) => a.backend@.contains_key(key@) && b@ == a.backend@[key@],
            None => !a.backend@.contains_key(key@),
        },
{
    if !matches!(p.role, Role::Leader) {
        return Err(RaftError::NotLeader);
    }
    if !p.can_read_locally() {
        return Err(RaftError::NotLeader);
    }
    Ok(a.read(key))
}

/// How many distinct ids are recorded once `from` is recorded too.
pub open spec fn ids_with(ids: Seq<u64>, from: u64) -> int {
    ids.len() + if exists|i: int| 0 <= i < ids.len() && ids[i] == from {
        0int
    } else {
        1int
    }
}

/// Whether a peer processes a message rather than rejecting or ignoring
/// it: the epoch is current and the term is not behind ours.
pub open spec fn step_handles(m: crate::msg::RaftMessageView, p: PeerFsm) -> bool {
    &&& !epoch_stale(m.epoch, p.region@.epoch)
    &&& m.term >= p.store.hard_state.term
}

/// The heartbeat a leader `p` owes the replica tracked by `pr`: its
/// commit index capped at what that replica acknowledged.
pub open spec fn is_heartbeat_to(m: crate::msg::RaftMessageView, p: PeerFsm, pr: Progress) -> bool {
    &&& m.region_id == p.region@.id
    &&& m.from_peer == p.peer_id
    &&& m.to_peer == pr.peer_id
    &&& m.term == p.store.hard_state.term
    &&& m.epoch == p.region@.epoch
    &&& m.kind == (crate::msg::MsgKindView::Heartbeat {
        commit: umin(pr.matched, p.store.hard_state.commit),
    })
}

/// The vote request a peer `p` (campaigning, so one term up) owes the
/// replica with id `to`, advertising how up to date its log is.
pub open spec fn is_vote_request_from(m: crate::msg::RaftMessageView, p: PeerFsm, to: u64) -> bool {
    &&& m.region_id == p.region@.id
    &&& m.from_peer == p.peer_id
    &&& m.to_peer == to
    &&& m.term == p.store.hard_state.term + 1
    &&& m.epoch == p.region@.epoch
    &&& m.kind == (crate::msg::MsgKindView::VoteRequest {
        last_log_index: p.store.spec_last_index() as u64,
        last_log_term: p.store.spec_term_at(p.store.spec_last_index()),
    })
}

/// A matched index a leader is obliged to commit: still in its log,
/// carrying the current term, and matched by a majority of the tracked
/// replicas.
pub open spec fn commit_obliged(p: PeerFsm, m: u64) -> bool {
    &&& p.store.apply_state.truncated_index <= m <= p.store.spec_last_index()
    &&& p.store.spec_term_at(m as int) == p.store.hard_state.term
    &&& 2 * count_at_least(p.progress@, m) > p.region@.peers.len()
}

/// The vote a peer holds once it has synchronized with a message of
/// `msg_term`: a strictly newer term clears the vote.
pub open spec fn synced_vote(msg_term: u64, s: PeerStorage) -> u64 {
    if msg_term > s.hard_state.term {
        0
    } else {
        s.hard_state.vote
    }
}

/// Whether a vote request from `from`, advertising a log that reaches
/// `(last_log_index, last_log_term)`, is granted by a peer with storage
/// `s`: no vote cast this term (or already cast for `from`), and the
/// candidate's log at least as up to date as ours.
pub open spec fn vote_granted(
    vote: u64,
    s: PeerStorage,
    from: u64,
    last_log_index: u64,
    last_log_term: u64,
) -> bool {
    &&& (vote == 0 || vote == from)
    &&& (last_log_term > s.spec_term_at(s.spec_last_index()) || (last_log_term == s.spec_term_at(
        s.spec_last_index(),
    ) && last_log_index >= s.spec_last_index()))
}

/// Whether a replicated append attaching after `(prev_index, prev_term)`
/// is accepted by a peer with storage `s`: the log still knows that index
/// and its term matches.
pub open spec fn append_accepted(s: PeerStorage, prev_index: u64, prev_term: u64) -> bool {
    &&& s.apply_state.truncated_index <= prev_index
    &&& prev_index <= s.spec_last_index()
    &&& s.spec_term_at(prev_index as int) == prev_term
}

/// The conditions under which a replicated append is well formed with
/// respect to the receiving storage: the entries attach contiguously after
/// `(prev_index, prev_term)` with never-decreasing terms bounded by the
/// sender's term, and they agree with the receiver's committed prefix — a
/// term conflict inside the committed prefix would be a log-matching
/// violation, which is fatal rather than handled.
pub open spec fn append_msg_wf(
    prev_index: u64,
    prev_term: u64,
    entries: Seq<crate::rlog::EntryView>,
    term: u64,
    s: PeerStorage,
) -> bool {
    &&& log_contiguous(entries, prev_index + 1)
    &&& terms_monotone(entries)
    &&& (entries.len() > 0 ==> prev_term <= entries[0].term)
    &&& (entries.len() > 0 ==> entries.last().term <= term)
    &&& prev_index + 1 + entries.len() <= u64::MAX
    &&& forall|k: int|
        0 <= k < entries.len() && prev_index + 1 + k <= s.hard_state.commit
            && s.spec_first_index() <= prev_index + 1 + k <= s.spec_last_index()
            ==> s.spec_term_at(prev_index + 1 + k) == (#[trigger] entries[k]).term
}

impl PeerFsm {
    /// Broadcasts a heartbeat to every other replica, carrying a commit
    /// index safe for each: never past what that replica acknowledged.
    fn broadcast_heartbeat(&mut self)
        requires
            old(self).wf(),
            old(self).role is Leader,
        ensures
            final(self).wf(),
            *final(self) == (PeerFsm { msgs: final(self).msgs, ..*old(self) }),
            final(self).msgs@.len() >= old(self).msgs@.len(),
            forall|j: int| 0 <= j < old(self).msgs@.len() ==> final(self).msgs@[j] == old(self).msgs@[j],
            // every other tracked replica gets its heartbeat staged
            forall|j: int|
                0 <= j < old(self).progress@.len() && (#[trigger] old(self).progress@[j]).peer_id
                    != old(self).peer_id ==> (exists|k: int|
                    old(self).msgs@.len() <= k < final(self).msgs@.len() && is_heartbeat_to(
                        (#[trigger] final(self).msgs@[k])@,
                        *old(self),
                        old(self).progress@[j],
                    )),
    {
        let commit = self.store.hard_state.commit;
        let mut i: usize = 0;
        while i < self.progress.len()
            invariant
                *self == (PeerFsm { msgs: self.msgs, ..*old(self) }),
                old(self).wf(),
                commit == old(self).store.hard_state.commit,
                i <= self.progress@.len(),
                old(self).msgs@.len() <= self.msgs@.len(),
                forall|j: int| 0 <= j < old(self).msgs@.len() ==> self.msgs@[j] == old(self).msgs@[j],
                forall|j: int|
                    0 <= j < i && (#[trigger] old(self).progress@[j]).peer_id != old(
                        self,
                    ).peer_id ==> (exists|k: int|
                        old(self).msgs@.len() <= k < self.msgs@.len() && is_heartbeat_to(
                            (#[trigger] self.msgs@[k])@,
                            *old(self),
                            old(self).progress@[j],
                        )),
            decreases self.progress@.len() - i,
        {
            let p = self.progress[i];
            if p.peer_id != self.peer_id {
                let safe_commit = if p.matched < commit {
                    p.matched
                } else {
                    commit
                };
                let ghost pre = self.msgs@;
                self.msgs.push(
                    RaftMessage {
                        region_id: self.region.id,
                        from_peer: self.peer_id,
                        to_peer: p.peer_id,
                        term: self.store.hard_state.term,
                        epoch: self.region.epoch,
                        kind: MsgKind::Heartbeat { commit: safe_commit },
                    },
                );
                proof {
                    assert(self.msgs@.last() == self.msgs@[pre.len() as int]);
                    assert(is_heartbeat_to(
                        self.msgs@[pre.len() as int]@,
                        *old(self),
                        old(self).progress@[i as int],
                    ));
                    assert forall|j: int|
                        0 <= j < i + 1 && (#[trigger] old(self).progress@[j]).peer_id != old(
                        self,
                    ).peer_id implies (exists|k: int|
                        old(self).msgs@.len() <= k < self.msgs@.len() && is_heartbeat_to(
                            (#[trigger] self.msgs@[k])@,
                            *old(self),
                            old(self).progress@[j],
                        )) by {
                        if j < i {
                            let k = choose|k: int|
                                old(self).msgs@.len() <= k < pre.len() && is_heartbeat_to(
                                    (#[trigger] pre[k])@,
                                    *old(self),
                                    old(self).progress@[j],
                                );
                            assert(self.msgs@[k] == pre[k]);
                        } else {
                            assert(old(self).msgs@.len() <= pre.len() < self.msgs@.len());
                        }
                    }
                }
            }
            i = i + 1;
        }
    }
}

} // verus!
