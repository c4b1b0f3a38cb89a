//! The apply state machine of one region: consumes committed log entries
//! in strict index order, executes them against the region's backend
//! state, and records apply progress. Re-applying an entry at or below the
//! persisted applied index is a no-op, which makes crash-restart replay
//! harmless.

use vstd::prelude::*;
use crate::engine::Backend;
use crate::keys::{clone_bytes, lex_lt};
use crate::region::{Epoch, PeerMeta, Region};
use crate::rlog::{is_normal, log_view, Command, CommandView, Entry, EntryView};
use crate::peer_storage::{Snapshot, SnapshotView};

verus! {

/// The apply state machine of one region.
pub struct ApplyFsm {
    pub region: Region,
    pub applied_index: u64,
    pub applied_term: u64,
    pub backend: Backend,
}

/// The mathematical value of an apply state machine: what was applied and
/// the data it produced.
pub struct ApplySt {
    pub applied_index: u64,
    pub applied_term: u64,
    pub data: Map<Seq<u8>, Seq<u8>>,
}

/// What one normal command does to the data.
pub open spec fn apply_cmd_map(m: Map<Seq<u8>, Seq<u8>>, c: CommandView) -> Map<Seq<u8>, Seq<u8>> {
    match c {
        CommandView::Noop => m,
        CommandView::Put { key, value } => m.insert(key, value),
        CommandView::Delete { key } => m.remove(key),
        CommandView::Split { .. } => m,
        CommandView::AddPeer { .. } => m,
        CommandView::RemovePeer { .. } => m,
    }
}

/// What applying one entry does to an apply state: nothing when the entry
/// is already covered by the applied index, the command's effect plus the
/// progress update otherwise.
pub open spec fn apply_entry_st(st: ApplySt, e: EntryView) -> ApplySt {
    if e.index <= st.applied_index {
        st
    } else {
        ApplySt { applied_index: e.index, applied_term: e.term, data: apply_cmd_map(st.data, e.cmd) }
    }
}

/// Applying a batch of entries, in order.
pub open spec fn apply_batch_st(st: ApplySt, log: Seq<EntryView>) -> ApplySt
    decreases log.len(),
{
    if log.len() == 0 {
        st
    } else {
        apply_batch_st(apply_entry_st(st, log[0]), log.skip(1))
    }
}

/// A batch is the batch of all but the last entry, then the last entry.
pub proof fn lemma_apply_batch_snoc(st: ApplySt, log: Seq<EntryView>)
    requires
        log.len() > 0,
    ensures
        apply_batch_st(st, log) == apply_entry_st(apply_batch_st(st, log.drop_last()), log.last()),
    decreases log.len(),
{
    if log.len() == 1 {
        assert(log.drop_last() =~= Seq::<EntryView>::empty());
        assert(log.skip(1) =~= Seq::<EntryView>::empty());
        let st1 = apply_entry_st(st, log[0]);
        assert(apply_batch_st(st, log) == apply_batch_st(st1, log.skip(1)));
        assert(apply_batch_st(st1, Seq::<EntryView>::empty()) == st1);
        assert(apply_batch_st(st, Seq::<EntryView>::empty()) == st);
        assert(log.last() == log[0]);
    } else {
        let st1 = apply_entry_st(st, log[0]);
        lemma_apply_batch_snoc(st1, log.skip(1));
        assert(log.skip(1).drop_last() =~= log.drop_last().skip(1));
        assert(log.skip(1).last() == log.last());
        assert(log.drop_last().len() > 0);
        assert(log.drop_last()[0] == log[0]);
        assert(apply_batch_st(st, log.drop_last()) == apply_batch_st(st1, log.drop_last().skip(1)));
    }
}

/// The applied index never retreats, and after a batch it is at or past
/// every entry of the batch.
pub proof fn lemma_apply_batch_applied(st: ApplySt, log: Seq<EntryView>)
    ensures
        apply_batch_st(st, log).applied_index >= st.applied_index,
        forall|i: int|
            0 <= i < log.len() ==> (#[trigger] log[i]).index <= apply_batch_st(
                st,
                log,
            ).applied_index,
    decreases log.len(),
{
    if log.len() > 0 {
        lemma_apply_batch_applied(apply_entry_st(st, log[0]), log.skip(1));
        assert forall|i: int| 0 <= i < log.len() implies (#[trigger] log[i]).index
            <= apply_batch_st(st, log).applied_index by {
            if i > 0 {
                assert(log.skip(1)[i - 1] == log[i]);
            }
        }
    }
}

/// A batch whose entries all sit at or below the applied index changes
/// nothing.
pub proof fn lemma_apply_batch_stale(st: ApplySt, log: Seq<EntryView>)
    requires
        forall|i: int| 0 <= i < log.len() ==> (#[trigger] log[i]).index <= st.applied_index,
    ensures
        apply_batch_st(st, log) == st,
    decreases log.len(),
{
    if log.len() > 0 {
        assert(apply_entry_st(st, log[0]) == st);
        assert forall|i: int| 0 <= i < log.skip(1).len() implies (#[trigger] log.skip(
            1,
        )[i]).index <= st.applied_index by {
            assert(log.skip(1)[i] == log[i + 1]);
        }
        lemma_apply_batch_stale(st, log.skip(1));
    }
}

/// Idempotent apply: applying the same committed batch twice produces the
/// same state as applying it once, which is what makes replay after a
/// crash-restart safe.
pub proof fn lemma_apply_idempotent(st: ApplySt, log: Seq<EntryView>)
    ensures
        apply_batch_st(apply_batch_st(st, log), log) == apply_batch_st(st, log),
{
    let st1 = apply_batch_st(st, log);
    lemma_apply_batch_applied(st, log);
    lemma_apply_batch_stale(st1, log);
}

/// The half of a state with the keys below the split key.
pub open spec fn below_half(m: Map<Seq<u8>, Seq<u8>>, sk: Seq<u8>) -> Map<Seq<u8>, Seq<u8>> {
    m.restrict(Set::new(|q: Seq<u8>| lex_lt(q, sk)))
}

/// The half of a state with the keys at or above the split key.
pub open spec fn above_half(m: Map<Seq<u8>, Seq<u8>>, sk: Seq<u8>) -> Map<Seq<u8>, Seq<u8>> {
    m.restrict(Set::new(|q: Seq<u8>| !lex_lt(q, sk)))
}

/// After a split, every key of the original state sits in exactly one of
/// the two halves, with its original value: none is lost, none is
/// duplicated.
pub proof fn lemma_split_partition(m: Map<Seq<u8>, Seq<u8>>, sk: Seq<u8>)
    ensures
        forall|k: Seq<u8>|
            #[trigger] m.contains_key(k) <==> (below_half(m, sk).contains_key(k) || above_half(
                m,
                sk,
            ).contains_key(k)),
        forall|k: Seq<u8>|
            !(below_half(m, sk).contains_key(k) && #[trigger] above_half(m, sk).contains_key(k)),
        forall|k: Seq<u8>|
            #[trigger] below_half(m, sk).contains_key(k) ==> below_half(m, sk)[k] == m[k],
        forall|k: Seq<u8>|
            #[trigger] above_half(m, sk).contains_key(k) ==> above_half(m, sk)[k] == m[k],
{
}

/// Snapshot round-trip: a snapshot built from a source replica (as
/// `build_snapshot` guarantees of its artifact) and installed on another
/// replica (as `install_snapshot` guarantees of its result) reproduces the
/// source's backend state, region and applied index/term exactly.
pub proof fn lemma_snapshot_round_trip(src: ApplyFsm, snap: SnapshotView, dst: ApplyFsm)
    requires
        snap.region == src.region@,
        snap.applied_index == src.applied_index,
        snap.applied_term == src.applied_term,
        snap.data == src.backend@,
        dst.region@ == snap.region,
        dst.applied_index == snap.applied_index,
        dst.applied_term == snap.applied_term,
        dst.backend@ == snap.data,
    ensures
        dst.st() == src.st(),
        dst.region@ == src.region@,
{
}

/// The membership once every replica with `id` is removed, order kept.
pub open spec fn peers_without(s: Seq<PeerMeta>, id: u64) -> Seq<PeerMeta>
    decreases s.len(),
{
    if s.len() == 0 {
        s
    } else if s.last().id == id {
        peers_without(s.drop_last(), id)
    } else {
        peers_without(s.drop_last(), id).push(s.last())
    }
}

/// The pieces of a split command.
pub open spec fn split_parts(c: CommandView) -> (Seq<u8>, u64, Seq<u64>) {
    match c {
        CommandView::Split { split_key, new_region_id, new_peer_ids } => (
            split_key,
            new_region_id,
            new_peer_ids,
        ),
        _ => (Seq::empty(), 0, Seq::empty()),
    }
}

impl ApplyFsm {
    /// The apply state this machine is in.
    pub open spec fn st(self) -> ApplySt {
        ApplySt {
            applied_index: self.applied_index,
            applied_term: self.applied_term,
            data: self.backend@,
        }
    }

    /// A fresh apply state machine over an empty backend state.
    pub fn new(region: Region) -> (r: ApplyFsm)
        ensures
            r.region@ == region@,
            r.applied_index == 0,
            r.applied_term == 0,
            r.backend@ == Map::<Seq<u8>, Seq<u8>>::empty(),
    {
        ApplyFsm { region, applied_index: 0, applied_term: 0, backend: Backend::empty() }
    }

    /// Reads the region's backend state at a key.
    pub fn read(&self, k: &Vec<u8>) -> (r: Option<Vec<u8>>)
        ensures
            match r {
                Some(v) => self.backend@.contains_key(k@) && v@ == self.backend@[k@],
                None => !self.backend@.contains_key(k@),
            },
    {
        self.backend.get(k)
    }

    /// Applies one committed normal entry: a no-op when the entry is at or
    /// below the applied index, the command's effect otherwise.
    pub fn apply_entry(&mut self, e: &Entry)
        requires
            is_normal(e@.cmd),
            e@.index <= old(self).applied_index + 1,
        ensures
            final(self).st() == apply_entry_st(old(self).st(), e@),
            final(self).region@ == old(self).region@,
            e@.index <= old(self).applied_index ==> final(self).st() == old(self).st(),
    {
        if e.index <= self.applied_index {
            return ;
        }
        match &e.cmd {
            Command::Noop => {},
            Command::Put { key, value } => {
                self.backend.put(clone_bytes(key), clone_bytes(value));
            },
            Command::Delete { key } => {
                self.backend.delete(key);
            },
            Command::Split { .. } | Command::AddPeer { .. } | Command::RemovePeer { .. } => {
                proof {
                    assert(false);
                }
            },
        }
        self.applied_index = e.index;
        self.applied_term = e.term;
    }

    /// Applies a batch of committed normal entries, contiguous and picking
    /// up right at (or inside) the applied prefix, in order.
    pub fn handle_committed(&mut self, entries: &Vec<Entry>)
        requires
            forall|i: int| 0 <= i < entries@.len() ==> is_normal((#[trigger] log_view(entries@)[i]).cmd),
            entries@.len() > 0 ==> crate::rlog::log_contiguous(
                log_view(entries@),
                log_view(entries@)[0].index as int,
            ),
            entries@.len() > 0 ==> log_view(entries@)[0].index <= old(self).applied_index + 1,
        ensures
            final(self).st() == apply_batch_st(old(self).st(), log_view(entries@)),
            final(self).region@ == old(self).region@,
    {
        let lg = Ghost(log_view(entries@));
        let mut i: usize = 0;
        proof {
            assert(apply_batch_st(old(self).st(), lg@.take(0)) == old(self).st());
        }
        while i < entries.len()
            invariant
                i <= entries@.len(),
                lg@ == log_view(entries@),
                self.st() == apply_batch_st(old(self).st(), lg@.take(i as int)),
                self.region@ == old(self).region@,
                self.applied_index >= old(self).applied_index,
                forall|k: int| 0 <= k < lg@.len() ==> is_normal((#[trigger] lg@[k]).cmd),
                entries@.len() > 0 ==> crate::rlog::log_contiguous(lg@, lg@[0].index as int),
                entries@.len() > 0 ==> lg@[0].index <= old(self).applied_index + 1,
                i > 0 ==> self.applied_index + 1 >= lg@[0].index + i,
            decreases entries@.len() - i,
        {
            proof {
                assert(lg@[i as int].index == lg@[0].index + i);
            }
            self.apply_entry(&entries[i]);
            proof {
                lemma_apply_batch_snoc(old(self).st(), lg@.take(i + 1));
                assert(lg@.take(i + 1).drop_last() =~= lg@.take(i as int));
                assert(lg@.take(i + 1).last() == lg@[i as int]);
            }
            i = i + 1;
        }
        proof {
            assert(lg@.take(entries@.len() as int) =~= lg@);
        }
    }

    /// Replaces this machine's whole state from a snapshot: the backend
    /// data, the region descriptor, and the apply progress all come from
    /// the snapshot.
    pub fn install_snapshot(&mut self, snap: &Snapshot)
        ensures
            final(self).backend@ == snap@.data,
            final(self).region@ == snap@.region,
            final(self).applied_index == snap@.applied_index,
            final(self).applied_term == snap@.applied_term,
    {
        self.backend = snap.data.clone_all();
        self.region = snap.region.clone_region();
        self.applied_index = snap.applied_index;
        self.applied_term = snap.applied_term;
    }

    /// Applies a committed split command: the keys below the split key
    /// move to a new region with the given id and fresh peer ids, both
    /// halves' epoch versions advance, and together the halves partition
    /// the original range exactly. A split at or below the applied index
    /// is a no-op.
    pub fn apply_split(&mut self, e: &Entry) -> (r: Option<ApplyFsm>)
        requires
            e@.cmd is Split,
            e@.index <= old(self).applied_index + 1,
            // the shape of the split matters only when the entry actually
            // executes; a replay at or below the applied index is a no-op
            // whatever it carries
            e@.index > old(self).applied_index ==> lex_lt(
                old(self).region@.start_key,
                split_parts(e@.cmd).0,
            ),
            e@.index > old(self).applied_index ==> (old(self).region@.end_key.len() == 0 || lex_lt(
                split_parts(e@.cmd).0,
                old(self).region@.end_key,
            )),
            e@.index > old(self).applied_index ==> split_parts(e@.cmd).2.len() == old(
                self,
            ).region@.peers.len(),
            e@.index > old(self).applied_index ==> old(self).region@.epoch.version < u64::MAX,
        ensures
            e@.index <= old(self).applied_index ==> r is None && final(self).st() == old(self).st()
                && final(self).region@ == old(self).region@,
            e@.index > old(self).applied_index ==> (r matches Some(new_fsm) && {
                let (sk, nid, nids) = split_parts(e@.cmd);
                &&& final(self).region@.id == old(self).region@.id
                &&& final(self).region@.start_key == sk
                &&& final(self).region@.end_key == old(self).region@.end_key
                &&& final(self).region@.epoch == (Epoch {
                    version: (old(self).region@.epoch.version + 1) as u64,
                    conf_version: old(self).region@.epoch.conf_version,
                })
                &&& final(self).region@.peers == old(self).region@.peers
                &&& final(self).backend@ == old(self).backend@.restrict(
                    Set::new(|q: Seq<u8>| !lex_lt(q, sk)),
                )
                &&& final(self).applied_index == e@.index
                &&& final(self).applied_term == e@.term
                &&& new_fsm.region@.id == nid
                &&& new_fsm.region@.start_key == old(self).region@.start_key
                &&& new_fsm.region@.end_key == sk
                &&& new_fsm.region@.epoch == (Epoch {
                    version: (old(self).region@.epoch.version + 1) as u64,
                    conf_version: old(self).region@.epoch.conf_version,
                })
                &&& new_fsm.region@.peers.len() == nids.len()
                &&& forall|i: int|
                    0 <= i < nids.len() ==> (#[trigger] new_fsm.region@.peers[i]) == (PeerMeta {
                        id: nids[i],
                        store_id: old(self).region@.peers[i].store_id,
                        node_id: old(self).region@.peers[i].node_id,
                    })
                &&& new_fsm.backend@ == old(self).backend@.restrict(
                    Set::new(|q: Seq<u8>| lex_lt(q, sk)),
                )
                &&& new_fsm.applied_index == 0
                &&& new_fsm.applied_term == 0
            }),
    {
        if e.index <= self.applied_index {
            return None;
        }
        match &e.cmd {
            Command::Split { split_key, new_region_id, new_peer_ids } => {
                let mut new_peers: Vec<PeerMeta> = Vec::new();
                let mut i: usize = 0;
                while i < new_peer_ids.len()
                    invariant
                        i <= new_peer_ids@.len(),
                        new_peer_ids@.len() == self.region.peers@.len(),
                        new_peers@.len() == i,
                        forall|j: int|
                            0 <= j < i ==> (#[trigger] new_peers@[j]) == (PeerMeta {
                                id: new_peer_ids@[j],
                                store_id: self.region.peers@[j].store_id,
                                node_id: self.region.peers@[j].node_id,
                            }),
                        self == old(self),
                    decreases new_peer_ids@.len() - i,
                {
                    new_peers.push(
                        PeerMeta {
                            id: new_peer_ids[i],
                            store_id: self.region.peers[i].store_id,
                            node_id: self.region.peers[i].node_id,
                        },
                    );
                    i = i + 1;
                }
                let below = self.backend.take_below(split_key);
                let new_region = Region {
                    id: *new_region_id,
                    start_key: clone_bytes(&self.region.start_key),
                    end_key: clone_bytes(split_key),
                    epoch: Epoch {
                        version: self.region.epoch.version + 1,
                        conf_version: self.region.epoch.conf_version,
                    },
                    peers: new_peers,
                };
                self.region.start_key = clone_bytes(split_key);
                self.region.epoch = Epoch {
                    version: self.region.epoch.version + 1,
                    conf_version: self.region.epoch.conf_version,
                };
                self.applied_index = e.index;
                self.applied_term = e.term;
                Some(
                    ApplyFsm {
                        region: new_region,
                        applied_index: 0,
                        applied_term: 0,
                        backend: below,
                    },
                )
            },
            _ => {
                proof {
                    assert(false);
                }
                None
            },
        }
    }

    /// Applies a committed membership change: the replica set gains or
    /// loses one peer, the epoch's configuration version advances, and the
    /// data is untouched. A change at or below the applied index is a
    /// no-op, which makes crash-restart replay harmless.
    pub fn apply_conf_change(&mut self, e: &Entry)
        requires
            e@.cmd is AddPeer || e@.cmd is RemovePeer,
            e@.index <= old(self).applied_index + 1,
            e@.index > old(self).applied_index ==> old(self).region@.epoch.conf_version
                < u64::MAX,
        ensures
            e@.index <= old(self).applied_index ==> final(self).st() == old(self).st() && final(self).region@ == old(self).region@,
            e@.index > old(self).applied_index ==> {
                &&& final(self).applied_index == e@.index
                &&& final(self).applied_term == e@.term
                &&& final(self).backend@ == old(self).backend@
                &&& final(self).region@.id == old(self).region@.id
                &&& final(self).region@.start_key == old(self).region@.start_key
                &&& final(self).region@.end_key == old(self).region@.end_key
                &&& final(self).region@.epoch == (Epoch {
                    version: old(self).region@.epoch.version,
                    conf_version: (old(self).region@.epoch.conf_version + 1) as u64,
                })
                &&& (e@.cmd matches CommandView::AddPeer { peer } ==> final(self).region@.peers
                    == (if exists|i: int|
                    0 <= i < old(self).region@.peers.len() && (#[trigger] old(
                        self,
                    ).region@.peers[i]).id == peer.id {
                    old(self).region@.peers
                } else {
                    old(self).region@.peers.push(peer)
                }))
                &&& (e@.cmd matches CommandView::RemovePeer { peer_id } ==> final(self).region@.peers == peers_without(old(self).region@.peers, peer_id))
            },
    {
        if e.index <= self.applied_index {
            return ;
        }
        match &e.cmd {
            Command::AddPeer { peer } => {
                let mut i: usize = 0;
                let mut present = false;
                let n = self.region.peers.len();
                while i < n && !present
                    invariant
                        n == self.region.peers@.len(),
                        i <= n,
                        *self == *old(self),
                        !present ==> forall|j: int|
                            0 <= j < i ==> (#[trigger] self.region.peers@[j]).id != peer.id,
                        present ==> exists|j: int|
                            0 <= j < n && (#[trigger] self.region.peers@[j]).id == peer.id,
                    decreases n - i + (if present {
                        0int
                    } else {
                        1int
                    }),
                {
                    if self.region.peers[i].id == peer.id {
                        proof {
                            assert((self.region.peers@[i as int]).id == peer.id);
                        }
                        present = true;
                    } else {
                        i = i + 1;
                    }
                }
                if !present {
                    self.region.peers.push(*peer);
                }
            },
            Command::RemovePeer { peer_id } => {
                let mut kept: Vec<PeerMeta> = Vec::new();
                let mut i: usize = 0;
                proof {
                    assert(peers_without(self.region.peers@.take(0), *peer_id) =~= Seq::<
                        PeerMeta,
                    >::empty());
                }
                while i < self.region.peers.len()
                    invariant
                        i <= self.region.peers@.len(),
                        kept@ == peers_without(self.region.peers@.take(i as int), *peer_id),
                        self.region.peers@ == old(self).region.peers@,
                    decreases self.region.peers@.len() - i,
                {
                    let p = self.region.peers[i];
                    if p.id != *peer_id {
                        kept.push(p);
                    }
                    proof {
                        let t = self.region.peers@.take(i + 1);
                        assert(t.drop_last() =~= self.region.peers@.take(i as int));
                        assert(t.last() == self.region.peers@[i as int]);
                    }
                    i = i + 1;
                }
                proof {
                    assert(self.region.peers@.take(self.region.peers@.len() as int)
                        =~= self.region.peers@);
                }
                self.region.peers = kept;
            },
            _ => {
                proof {
                    assert(false);
                }
            },
        }
        self.region.epoch = Epoch {
            version: self.region.epoch.version,
            conf_version: self.region.epoch.conf_version + 1,
        };
        self.applied_index = e.index;
        self.applied_term = e.term;
    }
}

} // verus!
