use rfstore::apply::ApplyFsm;
use rfstore::msg::{MsgKind, RaftMessage, Ready};
use rfstore::peer::{lease_read, PeerFsm, Role};
use rfstore::peer_storage::PeerStorage;
use rfstore::region::{Epoch, PeerMeta, Region};
use rfstore::rlog::Command;
use rfstore::RaftError;

fn region_three() -> Region {
    Region {
        id: 1,
        start_key: vec![],
        end_key: vec![],
        epoch: Epoch { version: 1, conf_version: 1 },
        peers: vec![
            PeerMeta { id: 1, store_id: 1, node_id: 1 },
            PeerMeta { id: 2, store_id: 2, node_id: 2 },
            PeerMeta { id: 3, store_id: 3, node_id: 3 },
        ],
    }
}

fn make_peer(id: u64, election_timeout: u64) -> PeerFsm {
    PeerFsm::new(id, region_three(), PeerStorage::init(1), election_timeout, 1, 100, 8)
}

/// Drives peer 1 through an election against peers 2 and 3.
fn elect_leader(p1: &mut PeerFsm, p2: &mut PeerFsm, p3: &mut PeerFsm) {
    p1.tick();
    p1.tick();
    assert!(matches!(p1.role, Role::Candidate));
    let ready = p1.collect_ready();
    for m in ready.messages {
        let to = m.to_peer;
        if to == 2 {
            p2.step(m).unwrap();
        } else if to == 3 {
            p3.step(m).unwrap();
        }
    }
    for m in p2.collect_ready().messages {
        p1.step(m).unwrap();
    }
    for m in p3.collect_ready().messages {
        p1.step(m).unwrap();
    }
    assert!(matches!(p1.role, Role::Leader));
}

/// Replicates the leader's log to one follower (progress position `i`)
/// and feeds the response back, returning the follower's ready batch.
fn replicate_to(leader: &mut PeerFsm, follower: &mut PeerFsm, i: usize) -> Ready {
    let m = leader.send_append(i).expect("log not compacted");
    follower.step(m).unwrap();
    let mut ready = follower.collect_ready();
    let msgs = std::mem::take(&mut ready.messages);
    for resp in msgs {
        assert!(matches!(resp.kind, MsgKind::AppendResponse { success: true, .. }));
        leader.step(resp).unwrap();
    }
    ready
}

fn apply_ready(p: &mut PeerFsm, a: &mut ApplyFsm, ready: &Ready) {
    if !ready.committed_entries.is_empty() {
        a.handle_committed(&ready.committed_entries);
        p.on_apply_res(a.applied_index, a.applied_term, ready.committed_entries.len(), false);
    }
}

#[test]
fn three_peer_commit_and_leader_read() {
    let mut p1 = make_peer(1, 2);
    let mut p2 = make_peer(2, 100);
    let mut p3 = make_peer(3, 100);
    let mut a1 = ApplyFsm::new(region_three());
    let mut a2 = ApplyFsm::new(region_three());
    let mut a3 = ApplyFsm::new(region_three());
    elect_leader(&mut p1, &mut p2, &mut p3);

    let epoch = p1.region.epoch;
    let idx = p1
        .propose(Command::Put { key: b"k".to_vec(), value: b"v".to_vec() }, epoch)
        .expect("leader accepts");
    assert_eq!(idx, 1);

    // once one follower persists, the leader plus it form a majority
    assert_eq!(p1.store.hard_state.commit, 0);
    let early2 = replicate_to(&mut p1, &mut p2, 1);
    apply_ready(&mut p2, &mut a2, &early2);
    assert_eq!(p1.store.hard_state.commit, 1);
    // the second follower already learns the commit index with the entries
    let early3 = replicate_to(&mut p1, &mut p3, 2);
    apply_ready(&mut p3, &mut a3, &early3);
    assert_eq!(p1.store.hard_state.commit, 1);

    // the leader applies the committed entry
    let ready1 = p1.collect_ready();
    apply_ready(&mut p1, &mut a1, &ready1);
    assert_eq!(p1.store.apply_state.applied_index, 1);

    // heartbeats carry the commit index to the followers, which then apply
    p1.tick();
    let hb = p1.collect_ready();
    for m in hb.messages {
        let to = m.to_peer;
        if to == 2 {
            p2.step(m).unwrap();
        } else {
            p3.step(m).unwrap();
        }
    }
    let r2 = p2.collect_ready();
    apply_ready(&mut p2, &mut a2, &r2);
    let r3 = p3.collect_ready();
    apply_ready(&mut p3, &mut a3, &r3);
    assert_eq!(p2.store.apply_state.applied_index, 1);
    assert_eq!(p3.store.apply_state.applied_index, 1);
    assert_eq!(a2.read(&b"k".to_vec()), Some(b"v".to_vec()));
    assert_eq!(a3.read(&b"k".to_vec()), Some(b"v".to_vec()));

    // a local read on the leader, under its lease, returns the value
    assert!(p1.can_read_locally());
    assert_eq!(lease_read(&p1, &a1, &b"k".to_vec()).unwrap(), Some(b"v".to_vec()));
}

#[test]
fn lease_read_agrees_with_read_index_path() {
    let mut p1 = make_peer(1, 2);
    let mut p2 = make_peer(2, 100);
    let mut p3 = make_peer(3, 100);
    let mut a1 = ApplyFsm::new(region_three());
    elect_leader(&mut p1, &mut p2, &mut p3);
    let epoch = p1.region.epoch;
    p1.propose(Command::Put { key: b"k".to_vec(), value: b"v".to_vec() }, epoch).unwrap();
    replicate_to(&mut p1, &mut p2, 1);
    replicate_to(&mut p1, &mut p3, 2);
    let ready = p1.collect_ready();
    apply_ready(&mut p1, &mut a1, &ready);

    let leased = lease_read(&p1, &a1, &b"k".to_vec()).unwrap();
    // the read-index path: take the safe commit point, wait until apply
    // reaches it, then read local state
    let ri = p1.read_index();
    assert!(p1.store.apply_state.applied_index >= ri);
    let indexed = a1.read(&b"k".to_vec());
    assert_eq!(leased, indexed);
}

#[test]
fn lease_read_refused_without_leadership() {
    let p2 = make_peer(2, 100);
    let a2 = ApplyFsm::new(region_three());
    assert_eq!(lease_read(&p2, &a2, &b"k".to_vec()), Err(RaftError::NotLeader));
}

#[test]
fn stale_epoch_always_rejected() {
    let mut p1 = make_peer(1, 2);
    let mut p2 = make_peer(2, 100);
    let mut p3 = make_peer(3, 100);
    elect_leader(&mut p1, &mut p2, &mut p3);

    let stale = Epoch { version: 0, conf_version: 1 };
    let r = p1.propose(Command::Put { key: b"k".to_vec(), value: b"v".to_vec() }, stale);
    assert_eq!(r, Err(RaftError::StaleEpoch));

    let term_before = p2.store.hard_state.term;
    let r2 = p2.step(RaftMessage {
        region_id: 1,
        from_peer: 1,
        to_peer: 2,
        term: 99,
        epoch: Epoch { version: 1, conf_version: 0 },
        kind: MsgKind::Heartbeat { commit: 0 },
    });
    assert_eq!(r2, Err(RaftError::StaleEpoch));
    assert_eq!(p2.store.hard_state.term, term_before);
    assert!(matches!(p2.role, Role::Follower));
}

#[test]
fn not_leader_and_queue_full_rejections() {
    let mut p2 = make_peer(2, 100);
    let epoch = p2.region.epoch;
    let r = p2.propose(Command::Noop, epoch);
    assert_eq!(r, Err(RaftError::NotLeader));

    // a leader with a zero-size proposal queue drops every proposal
    let mut p1 = PeerFsm::new(1, region_three(), PeerStorage::init(1), 2, 1, 100, 0);
    let mut q2 = make_peer(2, 100);
    let mut q3 = make_peer(3, 100);
    elect_leader(&mut p1, &mut q2, &mut q3);
    let r2 = p1.propose(Command::Noop, epoch);
    assert_eq!(r2, Err(RaftError::ProposalDropped));
}

#[test]
fn lagging_follower_catches_up_via_snapshot() {
    let mut p1 = make_peer(1, 2);
    let mut p2 = make_peer(2, 100);
    let mut p3 = make_peer(3, 100);
    let mut a1 = ApplyFsm::new(region_three());
    let mut a3 = ApplyFsm::new(region_three());
    elect_leader(&mut p1, &mut p2, &mut p3);
    let epoch = p1.region.epoch;

    // peer 3 is isolated: entries commit through peer 2 alone
    p1.propose(Command::Put { key: b"k1".to_vec(), value: b"v1".to_vec() }, epoch).unwrap();
    p1.propose(Command::Put { key: b"k2".to_vec(), value: b"v2".to_vec() }, epoch).unwrap();
    replicate_to(&mut p1, &mut p2, 1);
    assert_eq!(p1.store.hard_state.commit, 2);
    let ready = p1.collect_ready();
    apply_ready(&mut p1, &mut a1, &ready);

    // the retained log window shrinks past what peer 3 ever saw
    p1.compact_log(2);
    let r = p1.send_append(2);
    assert!(matches!(r, Err(RaftError::LogCompacted)));

    // so a snapshot transfer brings it up to date
    let snap = p1.store.build_snapshot(&p1.region, &a1.backend);
    p3.step(RaftMessage {
        region_id: 1,
        from_peer: 1,
        to_peer: 3,
        term: p1.store.hard_state.term,
        epoch,
        kind: MsgKind::SnapshotTransfer { snap },
    })
    .unwrap();
    p1.record_snapshot_sent(2, 2);
    let r3 = p3.collect_ready();
    let snap_out = r3.snapshot.expect("snapshot staged for apply");
    a3.install_snapshot(&snap_out);
    assert_eq!(p3.store.apply_state.applied_index, 2);
    assert_eq!(a3.read(&b"k1".to_vec()), Some(b"v1".to_vec()));
    assert_eq!(a3.read(&b"k2".to_vec()), Some(b"v2".to_vec()));

    // replication then resumes normally past the snapshot
    p1.propose(Command::Put { key: b"k3".to_vec(), value: b"v3".to_vec() }, epoch).unwrap();
    let m = p1.send_append(2).expect("suffix available again");
    p3.step(m).unwrap();
    assert_eq!(p3.store.last_index(), 3);
}

#[test]
fn tick_drives_election_timeout() {
    let mut p = make_peer(1, 3);
    p.tick();
    assert!(matches!(p.role, Role::Follower));
    p.tick();
    assert!(matches!(p.role, Role::Follower));
    p.tick();
    assert!(matches!(p.role, Role::Candidate));
    assert_eq!(p.store.hard_state.term, 1);
    assert_eq!(p.store.hard_state.vote, 1);
    let msgs = p.collect_ready().messages;
    assert_eq!(msgs.len(), 2);
    for m in &msgs {
        assert!(matches!(m.kind, MsgKind::VoteRequest { .. }));
    }
}

#[test]
fn vote_denied_to_out_of_date_log() {
    let mut voter = make_peer(2, 100);
    // the voter has an entry of term 1; a candidate with an empty log asks
    voter.step(RaftMessage {
        region_id: 1,
        from_peer: 1,
        to_peer: 2,
        term: 1,
        epoch: voter.region.epoch,
        kind: MsgKind::AppendRequest { prev_index: 0, prev_term: 0, entries: vec![
            rfstore::rlog::Entry { term: 1, index: 1, cmd: Command::Noop },
        ], commit: 0 },
    })
    .unwrap();
    voter.collect_ready();
    voter.step(RaftMessage {
        region_id: 1,
        from_peer: 3,
        to_peer: 2,
        term: 2,
        epoch: voter.region.epoch,
        kind: MsgKind::VoteRequest { last_log_index: 0, last_log_term: 0 },
    })
    .unwrap();
    let msgs = voter.collect_ready().messages;
    assert_eq!(msgs.len(), 1);
    assert!(matches!(msgs[0].kind, MsgKind::VoteResponse { granted: false }));
    assert_eq!(voter.store.hard_state.vote, 0);
}

#[test]
fn fan_out_ticks_every_peer() {
    let mut peers = vec![make_peer(1, 1), make_peer(2, 5)];
    rfstore::ticker::fan_out(&mut peers);
    // the first peer's election timeout fires on this tick; the second
    // only advances its clock
    assert!(matches!(peers[0].role, Role::Candidate));
    assert_eq!(peers[0].store.hard_state.term, 1);
    assert!(matches!(peers[1].role, Role::Follower));
    assert_eq!(peers[1].election_elapsed, 1);
}

#[test]
fn destroyed_peer_discards_queued_work() {
    let mut p = make_peer(1, 2);
    p.tick();
    p.tick();
    assert!(!p.msgs.is_empty());
    p.destroy();
    assert!(p.msgs.is_empty());
    assert!(!p.can_read_locally());
}
