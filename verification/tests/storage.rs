use rfstore::engine::Backend;
use rfstore::peer_storage::{HardState, PeerStorage};
use rfstore::region::{Epoch, PeerMeta, Region};
use rfstore::rlog::{Command, Entry};

fn region_one() -> Region {
    Region {
        id: 1,
        start_key: vec![],
        end_key: vec![],
        epoch: Epoch { version: 1, conf_version: 1 },
        peers: vec![PeerMeta { id: 1, store_id: 1, node_id: 1 }],
    }
}

fn noop(term: u64, index: u64) -> Entry {
    Entry { term, index, cmd: Command::Noop }
}

#[test]
fn fresh_storage_is_empty() {
    let s = PeerStorage::init(1);
    assert_eq!(s.first_index(), 1);
    assert_eq!(s.last_index(), 0);
    assert_eq!(s.term(0), Some(0));
    assert_eq!(s.term(1), None);
}

#[test]
fn append_then_read_terms() {
    let mut s = PeerStorage::init(1);
    let hs = HardState { term: 2, vote: 0, commit: 0 };
    s.append(&vec![noop(1, 1), noop(2, 2)], hs);
    assert_eq!(s.last_index(), 2);
    assert_eq!(s.term(1), Some(1));
    assert_eq!(s.term(2), Some(2));
    assert_eq!(s.term(3), None);
}

#[test]
fn append_truncates_conflicting_suffix() {
    let mut s = PeerStorage::init(1);
    s.append(&vec![noop(1, 1), noop(1, 2), noop(1, 3)], HardState { term: 1, vote: 0, commit: 0 });
    // a later leader overwrites from index 2 on
    s.append(&vec![noop(2, 2)], HardState { term: 2, vote: 0, commit: 0 });
    assert_eq!(s.last_index(), 2);
    assert_eq!(s.term(1), Some(1));
    assert_eq!(s.term(2), Some(2));
    assert_eq!(s.term(3), None);
}

#[test]
fn ordering_invariant_applied_commit_last() {
    let mut s = PeerStorage::init(1);
    s.append(&vec![noop(1, 1), noop(1, 2)], HardState { term: 1, vote: 0, commit: 0 });
    s.set_commit(1);
    s.advance_applied(1, 1);
    assert!(s.apply_state.applied_index <= s.hard_state.commit);
    assert!(s.hard_state.commit <= s.last_index());
    s.set_commit(2);
    s.advance_applied(2, 1);
    assert!(s.apply_state.applied_index <= s.hard_state.commit);
    assert!(s.hard_state.commit <= s.last_index());
}

#[test]
fn compact_drops_prefix_and_remembers_term() {
    let mut s = PeerStorage::init(1);
    s.append(&vec![noop(1, 1), noop(2, 2), noop(2, 3)], HardState { term: 2, vote: 0, commit: 0 });
    s.set_commit(3);
    s.advance_applied(3, 2);
    s.compact(2);
    assert_eq!(s.first_index(), 3);
    assert_eq!(s.last_index(), 3);
    assert_eq!(s.term(1), None);
    assert_eq!(s.term(2), Some(2));
    assert_eq!(s.term(3), Some(2));
}

#[test]
fn maybe_append_rejects_mismatched_prev_term() {
    let mut s = PeerStorage::init(1);
    s.append(&vec![noop(1, 1)], HardState { term: 1, vote: 0, commit: 0 });
    let r = s.maybe_append(1, 9, &vec![noop(9, 2)], 0);
    assert_eq!(r, None);
    assert_eq!(s.last_index(), 1);
    assert_eq!(s.term(1), Some(1));
}

#[test]
fn maybe_append_appends_and_commits() {
    let mut s = PeerStorage::init(1);
    s.set_term_vote(2, 0);
    let r = s.maybe_append(0, 0, &vec![noop(1, 1), noop(2, 2)], 2);
    assert_eq!(r, Some(0));
    assert_eq!(s.last_index(), 2);
    assert_eq!(s.hard_state.commit, 2);
    // replaying the same message is harmless: both entries already present
    let r2 = s.maybe_append(0, 0, &vec![noop(1, 1), noop(2, 2)], 2);
    assert_eq!(r2, Some(2));
    assert_eq!(s.last_index(), 2);
    assert_eq!(s.hard_state.commit, 2);
}

#[test]
fn maybe_append_resolves_conflict() {
    let mut s = PeerStorage::init(1);
    s.set_term_vote(3, 0);
    s.maybe_append(0, 0, &vec![noop(1, 1), noop(1, 2), noop(1, 3)], 1);
    // a new leader of term 3 rewrites indices 2..3 with term 3 entries
    let r = s.maybe_append(1, 1, &vec![noop(3, 2), noop(3, 3)], 3);
    assert_eq!(r, Some(0));
    assert_eq!(s.last_index(), 3);
    assert_eq!(s.term(2), Some(3));
    assert_eq!(s.term(3), Some(3));
    assert_eq!(s.hard_state.commit, 3);
}

#[test]
fn snapshot_round_trip_reproduces_state() {
    let region = region_one();
    let mut src = PeerStorage::init(1);
    src.append(&vec![noop(1, 1), noop(1, 2)], HardState { term: 1, vote: 0, commit: 0 });
    src.set_commit(2);
    src.advance_applied(2, 1);
    let mut data = Backend::empty();
    data.put(vec![1], vec![10]);
    data.put(vec![2], vec![20]);
    let snap = src.build_snapshot(&region, &data);
    assert_eq!(snap.applied_index, 2);
    assert_eq!(snap.applied_term, 1);
    assert!(snap.region.same_as(&region));

    let mut dst = PeerStorage::init(1);
    dst.apply_snapshot(&snap);
    assert_eq!(dst.apply_state.applied_index, src.apply_state.applied_index);
    assert_eq!(dst.apply_state.applied_term, src.apply_state.applied_term);
    assert_eq!(dst.hard_state.commit, 2);
    assert_eq!(dst.last_index(), 2);
    assert_eq!(snap.data.get(&vec![1]), Some(vec![10]));
    assert_eq!(snap.data.get(&vec![2]), Some(vec![20]));
    assert_eq!(snap.data.get(&vec![3]), None);
}

#[test]
fn backend_put_get_delete() {
    let mut b = Backend::empty();
    assert_eq!(b.get(&vec![1]), None);
    b.put(vec![1], vec![10]);
    b.put(vec![2], vec![20]);
    assert_eq!(b.get(&vec![1]), Some(vec![10]));
    b.put(vec![1], vec![11]);
    assert_eq!(b.get(&vec![1]), Some(vec![11]));
    b.delete(&vec![1]);
    assert_eq!(b.get(&vec![1]), None);
    assert_eq!(b.get(&vec![2]), Some(vec![20]));
}
