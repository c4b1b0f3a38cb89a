use rfstore::msg::{MsgKind, RaftMessage};
use rfstore::peer::Role;
use rfstore::peer_storage::{HardState, PeerStorage};
use rfstore::recover::{recover_all, PersistedRegion};
use rfstore::region::{Epoch, PeerMeta, Region};
use rfstore::rlog::{Command, Entry};
use rfstore::ticker::Ticker;
use rfstore::transport::Transport;
use rfstore::RaftError;

fn region(id: u64) -> Region {
    Region {
        id,
        start_key: vec![],
        end_key: vec![],
        epoch: Epoch { version: 1, conf_version: 1 },
        peers: vec![PeerMeta { id: 1, store_id: 1, node_id: 1 }],
    }
}

fn heartbeat(to: u64) -> RaftMessage {
    RaftMessage {
        region_id: 1,
        from_peer: 1,
        to_peer: to,
        term: 1,
        epoch: Epoch { version: 1, conf_version: 1 },
        kind: MsgKind::Heartbeat { commit: 0 },
    }
}

#[test]
fn ticker_fires_once_per_interval() {
    let mut t = Ticker::new(5);
    assert!(!t.advance(4));
    assert!(t.advance(5));
    assert!(!t.advance(8));
    assert!(t.advance(10));
}

#[test]
fn ticker_coalesces_long_drift() {
    let mut t = Ticker::new(5);
    // far more than one interval passed: still a single tick, no burst
    assert!(t.advance(100));
    assert!(!t.advance(101));
    assert!(!t.advance(104));
    assert!(t.advance(105));
}

#[test]
fn transport_bounded_queue_rejects_overflow() {
    let mut t = Transport::new(2, 3, 10);
    let q = t.ensure_queue(7);
    assert_eq!(t.send_at(q, heartbeat(2)), Ok(()));
    assert_eq!(t.send_at(q, heartbeat(2)), Ok(()));
    assert_eq!(t.send_at(q, heartbeat(2)), Err(RaftError::SendFailed));
    let batch = t.flush(q);
    assert_eq!(batch.len(), 2);
    assert_eq!(t.send_at(q, heartbeat(2)), Ok(()));
    // an unrelated destination is unaffected
    let q2 = t.ensure_queue(8);
    assert_ne!(q, q2);
    assert_eq!(t.send_at(q2, heartbeat(3)), Ok(()));
}

#[test]
fn transport_backoff_doubles_to_ceiling() {
    let mut t = Transport::new(2, 3, 10);
    let q = t.ensure_queue(7);
    t.on_send_failure(q);
    assert_eq!(t.queues[q].backoff, 3);
    t.on_send_failure(q);
    assert_eq!(t.queues[q].backoff, 6);
    t.on_send_failure(q);
    assert_eq!(t.queues[q].backoff, 10);
    t.on_send_failure(q);
    assert_eq!(t.queues[q].backoff, 10);
    t.on_send_ok(q);
    assert_eq!(t.queues[q].backoff, 0);
}

#[test]
fn recovery_resumes_persisted_state() {
    let mut done = PeerStorage::init(1);
    done.append(
        &vec![Entry { term: 1, index: 1, cmd: Command::Noop }],
        HardState { term: 1, vote: 0, commit: 1 },
    );
    done.advance_applied(1, 1);
    let rec = PersistedRegion { region: region(1), consistent: PeerStorage::init(1), staged: Some(
        done,
    ), staging: false };
    let peers = recover_all(vec![rec], 1, 10, 2, 100, 8);
    assert_eq!(peers.len(), 1);
    assert!(matches!(peers[0].role, Role::Follower));
    // the completed staged state was adopted
    assert_eq!(peers[0].store.last_index(), 1);
    assert_eq!(peers[0].store.apply_state.applied_index, 1);
}

#[test]
fn recovery_rolls_back_interrupted_staging() {
    let mut partial = PeerStorage::init(2);
    partial.append(
        &vec![Entry { term: 1, index: 1, cmd: Command::Noop }],
        HardState { term: 1, vote: 0, commit: 0 },
    );
    // the staging marker is still set: the staged state is incomplete
    let rec = PersistedRegion {
        region: region(2),
        consistent: PeerStorage::init(2),
        staged: Some(partial),
        staging: true,
    };
    let peers = recover_all(vec![rec], 1, 10, 2, 100, 8);
    assert_eq!(peers.len(), 1);
    // rolled back to the last known-consistent state
    assert_eq!(peers[0].store.last_index(), 0);
    assert_eq!(peers[0].store.apply_state.applied_index, 0);
}
