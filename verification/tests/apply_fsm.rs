use rfstore::apply::ApplyFsm;
use rfstore::keys::bytes_lt;
use rfstore::region::{Epoch, PeerMeta, Region};
use rfstore::rlog::{Command, Entry};

fn region_two_peers() -> Region {
    Region {
        id: 1,
        start_key: vec![b'a'],
        end_key: vec![b'z'],
        epoch: Epoch { version: 3, conf_version: 2 },
        peers: vec![
            PeerMeta { id: 11, store_id: 1, node_id: 1 },
            PeerMeta { id: 12, store_id: 2, node_id: 2 },
        ],
    }
}

fn put(term: u64, index: u64, k: &[u8], v: &[u8]) -> Entry {
    Entry { term, index, cmd: Command::Put { key: k.to_vec(), value: v.to_vec() } }
}

#[test]
fn apply_in_order_and_read_back() {
    let mut a = ApplyFsm::new(region_two_peers());
    let batch = vec![put(1, 1, b"k1", b"v1"), put(1, 2, b"k2", b"v2")];
    a.handle_committed(&batch);
    assert_eq!(a.applied_index, 2);
    assert_eq!(a.applied_term, 1);
    assert_eq!(a.read(&b"k1".to_vec()), Some(b"v1".to_vec()));
    assert_eq!(a.read(&b"k2".to_vec()), Some(b"v2".to_vec()));
    assert_eq!(a.read(&b"k3".to_vec()), None);
}

#[test]
fn delete_removes_key() {
    let mut a = ApplyFsm::new(region_two_peers());
    a.handle_committed(&vec![put(1, 1, b"k", b"v")]);
    let del = Entry { term: 1, index: 2, cmd: Command::Delete { key: b"k".to_vec() } };
    a.handle_committed(&vec![del]);
    assert_eq!(a.read(&b"k".to_vec()), None);
    assert_eq!(a.applied_index, 2);
}

#[test]
fn replaying_a_committed_batch_is_idempotent() {
    let mut once = ApplyFsm::new(region_two_peers());
    let batch = vec![
        put(1, 1, b"k", b"v1"),
        put(1, 2, b"k", b"v2"),
        Entry { term: 1, index: 3, cmd: Command::Delete { key: b"q".to_vec() } },
    ];
    once.handle_committed(&batch);
    let mut twice = ApplyFsm::new(region_two_peers());
    twice.handle_committed(&batch);
    // simulate a crash-restart replay from an earlier checkpoint
    twice.handle_committed(&batch);
    assert_eq!(twice.applied_index, once.applied_index);
    assert_eq!(twice.applied_term, once.applied_term);
    assert_eq!(twice.read(&b"k".to_vec()), once.read(&b"k".to_vec()));
    assert_eq!(twice.read(&b"k".to_vec()), Some(b"v2".to_vec()));
}

#[test]
fn stale_entry_is_a_no_op() {
    let mut a = ApplyFsm::new(region_two_peers());
    a.handle_committed(&vec![put(1, 1, b"k", b"v1")]);
    // the same entry again, as a restart replay would hand it over
    a.apply_entry(&put(1, 1, b"k", b"other"));
    assert_eq!(a.read(&b"k".to_vec()), Some(b"v1".to_vec()));
    assert_eq!(a.applied_index, 1);
}

#[test]
fn split_partitions_range_keys_and_epochs() {
    let mut a = ApplyFsm::new(region_two_peers());
    a.handle_committed(&vec![
        put(1, 1, b"b", b"1"),
        put(1, 2, b"m", b"2"),
        put(1, 3, b"x", b"3"),
    ]);
    let split = Entry {
        term: 1,
        index: 4,
        cmd: Command::Split {
            split_key: b"m".to_vec(),
            new_region_id: 2,
            new_peer_ids: vec![21, 22],
        },
    };
    let new_fsm = a.apply_split(&split).expect("split applies");

    // the two ranges partition the original exactly
    assert_eq!(new_fsm.region.start_key, b"a".to_vec());
    assert_eq!(new_fsm.region.end_key, b"m".to_vec());
    assert_eq!(a.region.start_key, b"m".to_vec());
    assert_eq!(a.region.end_key, b"z".to_vec());
    // both epochs incremented
    assert_eq!(a.region.epoch, Epoch { version: 4, conf_version: 2 });
    assert_eq!(new_fsm.region.epoch, Epoch { version: 4, conf_version: 2 });
    // new peers mirror the old stores under new ids
    assert_eq!(new_fsm.region.id, 2);
    assert_eq!(new_fsm.region.peers.len(), 2);
    assert_eq!(new_fsm.region.peers[0].id, 21);
    assert_eq!(new_fsm.region.peers[0].store_id, 1);
    assert_eq!(new_fsm.region.peers[1].id, 22);
    assert_eq!(new_fsm.region.peers[1].store_id, 2);
    // no key lost, none duplicated
    assert_eq!(new_fsm.read(&b"b".to_vec()), Some(b"1".to_vec()));
    assert_eq!(new_fsm.read(&b"m".to_vec()), None);
    assert_eq!(new_fsm.read(&b"x".to_vec()), None);
    assert_eq!(a.read(&b"b".to_vec()), None);
    assert_eq!(a.read(&b"m".to_vec()), Some(b"2".to_vec()));
    assert_eq!(a.read(&b"x".to_vec()), Some(b"3".to_vec()));
    assert_eq!(a.applied_index, 4);
    assert!(bytes_lt(&new_fsm.region.start_key, &new_fsm.region.end_key));
    assert!(bytes_lt(&a.region.start_key, &a.region.end_key));
}

#[test]
fn replayed_split_is_a_no_op() {
    let mut a = ApplyFsm::new(region_two_peers());
    a.handle_committed(&vec![put(1, 1, b"b", b"1"), put(1, 2, b"x", b"2")]);
    let split = Entry {
        term: 1,
        index: 3,
        cmd: Command::Split {
            split_key: b"m".to_vec(),
            new_region_id: 2,
            new_peer_ids: vec![21, 22],
        },
    };
    assert!(a.apply_split(&split).is_some());
    // a crash-restart replay hands the same committed entry over again:
    // it must change nothing, although the region now starts at the split key
    assert!(a.apply_split(&split).is_none());
    assert_eq!(a.applied_index, 3);
    assert_eq!(a.region.start_key, b"m".to_vec());
    assert_eq!(a.region.epoch, Epoch { version: 4, conf_version: 2 });
    assert_eq!(a.read(&b"x".to_vec()), Some(b"2".to_vec()));
    assert_eq!(a.read(&b"b".to_vec()), None);
}

#[test]
fn conf_change_add_and_remove_peer() {
    let mut a = ApplyFsm::new(region_two_peers());
    let add = Entry {
        term: 1,
        index: 1,
        cmd: Command::AddPeer { peer: PeerMeta { id: 13, store_id: 3, node_id: 3 } },
    };
    a.apply_conf_change(&add);
    assert_eq!(a.applied_index, 1);
    assert_eq!(a.region.peers.len(), 3);
    assert_eq!(a.region.peers[2].id, 13);
    // the membership version advanced, the key range did not
    assert_eq!(a.region.epoch, Epoch { version: 3, conf_version: 3 });
    assert_eq!(a.region.start_key, b"a".to_vec());

    let remove = Entry { term: 1, index: 2, cmd: Command::RemovePeer { peer_id: 11 } };
    a.apply_conf_change(&remove);
    assert_eq!(a.region.peers.len(), 2);
    assert_eq!(a.region.peers[0].id, 12);
    assert_eq!(a.region.peers[1].id, 13);
    assert_eq!(a.region.epoch, Epoch { version: 3, conf_version: 4 });

    // a crash-restart replay of either entry changes nothing
    a.apply_conf_change(&add);
    a.apply_conf_change(&remove);
    assert_eq!(a.applied_index, 2);
    assert_eq!(a.region.peers.len(), 2);
    assert_eq!(a.region.epoch, Epoch { version: 3, conf_version: 4 });
}

#[test]
fn duplicate_peer_add_keeps_membership() {
    let mut a = ApplyFsm::new(region_two_peers());
    let add = Entry {
        term: 1,
        index: 1,
        cmd: Command::AddPeer { peer: PeerMeta { id: 11, store_id: 1, node_id: 1 } },
    };
    a.apply_conf_change(&add);
    assert_eq!(a.region.peers.len(), 2);
    assert_eq!(a.region.epoch, Epoch { version: 3, conf_version: 3 });
}

#[test]
fn stale_split_is_a_no_op() {
    let mut a = ApplyFsm::new(region_two_peers());
    a.handle_committed(&vec![put(1, 1, b"b", b"1")]);
    let split = Entry {
        term: 1,
        index: 1,
        cmd: Command::Split {
            split_key: b"m".to_vec(),
            new_region_id: 2,
            new_peer_ids: vec![21, 22],
        },
    };
    assert!(a.apply_split(&split).is_none());
    assert_eq!(a.applied_index, 1);
    assert_eq!(a.region.epoch, Epoch { version: 3, conf_version: 2 });
}
