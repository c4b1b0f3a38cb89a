//! Regions: contiguous, versioned partitions of the keyspace, each
//! replicated as one Raft group, and the epoch checks that reject stale
//! messages and proposals.

use vstd::prelude::*;
use crate::keys::{bytes_eq, bytes_lt, clone_bytes, lex_lt};

verus! {

/// A region's epoch: `version` advances on key-range changes (split,
/// merge), `conf_version` on membership changes.
#[derive(Clone, Copy, Debug, PartialEq, Eq, Structural)]
pub struct Epoch {
    pub version: u64,
    pub conf_version: u64,
}

/// One replica of a region, identified by node, store and peer id.
#[derive(Clone, Copy, Debug, PartialEq, Eq, Structural)]
pub struct PeerMeta {
    pub id: u64,
    pub store_id: u64,
    pub node_id: u64,
}

/// A contiguous key range `[start_key, end_key)` (an empty `end_key`
/// means unbounded), its epoch, and its replica set.
pub struct Region {
    pub id: u64,
    pub start_key: Vec<u8>,
    pub end_key: Vec<u8>,
    pub epoch: Epoch,
    pub peers: Vec<PeerMeta>,
}

/// The mathematical value of a region.
pub struct RegionView {
    pub id: u64,
    pub start_key: Seq<u8>,
    pub end_key: Seq<u8>,
    pub epoch: Epoch,
    pub peers: Seq<PeerMeta>,
}

impl View for Region {
    type V = RegionView;

    open spec fn view(&self) -> RegionView {
        RegionView {
            id: self.id,
            start_key: self.start_key@,
            end_key: self.end_key@,
            epoch: self.epoch,
            peers: self.peers@,
        }
    }
}

/// `e` is strictly older than `cur` in at least one component and newer
/// in none: such an epoch belongs to a configuration that has since
/// changed, and everything carrying it must be rejected.
pub open spec fn epoch_stale(e: Epoch, cur: Epoch) -> bool {
    e.version < cur.version || e.conf_version < cur.conf_version
}

/// Decides whether an epoch is stale with respect to the current one.
pub fn check_epoch_stale(e: &Epoch, cur: &Epoch) -> (r: bool)
    ensures
        r == epoch_stale(*e, *cur),
{
    e.version < cur.version || e.conf_version < cur.conf_version
}

/// A key lies in a region's range.
pub open spec fn key_in_range(k: Seq<u8>, r: RegionView) -> bool {
    &&& !lex_lt(k, r.start_key)
    &&& (r.end_key.len() == 0 || lex_lt(k, r.end_key))
}

/// A region's range is non-empty and ordered.
pub open spec fn region_range_wf(r: RegionView) -> bool {
    r.end_key.len() == 0 || lex_lt(r.start_key, r.end_key)
}

impl Region {
    /// Decides whether a key lies in this region's range.
    pub fn key_in_region(&self, k: &Vec<u8>) -> (r: bool)
        ensures
            r == key_in_range(k@, self@),
    {
        if bytes_lt(k, &self.start_key) {
            return false;
        }
        if self.end_key.len() == 0 {
            return true;
        }
        bytes_lt(k, &self.end_key)
    }

    /// Finds the replica of this region that lives on the given store.
    pub fn peer_on_store(&self, store_id: u64) -> (r: Option<PeerMeta>)
        ensures
            match r {
                Some(p) => exists|i: int|
                    0 <= i < self@.peers.len() && self@.peers[i] == p && p.store_id == store_id,
                None => forall|i: int|
                    0 <= i < self@.peers.len() ==> self@.peers[i].store_id != store_id,
            },
    {
        let mut i: usize = 0;
        while i < self.peers.len()
            invariant
                i <= self.peers.len(),
                forall|j: int| 0 <= j < i ==> self@.peers[j].store_id != store_id,
            decreases self.peers.len() - i,
        {
            if self.peers[i].store_id == store_id {
                let p = self.peers[i];
                proof {
                    let wi = i as int;
                    assert(0 <= wi < self@.peers.len() && self@.peers[wi] == p && p.store_id
                        == store_id);
                }
                return Some(p);
            }
            i = i + 1;
        }
        None
    }

    /// Copies the region descriptor.
    pub fn clone_region(&self) -> (r: Region)
        ensures
            r@ == self@,
    {
        let mut peers: Vec<PeerMeta> = Vec::new();
        let mut i: usize = 0;
        while i < self.peers.len()
            invariant
                i <= self.peers.len(),
                peers@ == self.peers@.take(i as int),
            decreases self.peers.len() - i,
        {
            peers.push(self.peers[i]);
            proof {
                assert(peers@ =~= self.peers@.take(i + 1));
            }
            i = i + 1;
        }
        proof {
            assert(self.peers@.take(self.peers@.len() as int) =~= self.peers@);
        }
        Region {
            id: self.id,
            start_key: clone_bytes(&self.start_key),
            end_key: clone_bytes(&self.end_key),
            epoch: self.epoch,
            peers,
        }
    }

    /// Two region descriptors describe the same region value.
    pub fn same_as(&self, other: &Region) -> (r: bool)
        ensures
            r == (self@ == other@),
    {
        if self.id != other.id {
            proof {
                assert(self@ != other@);
            }
            return false;
        }
        if !bytes_eq(&self.start_key, &other.start_key) {
            proof {
                assert(self@ != other@);
            }
            return false;
        }
        if !bytes_eq(&self.end_key, &other.end_key) {
            proof {
                assert(self@ != other@);
            }
            return false;
        }
        if self.epoch.version != other.epoch.version
            || self.epoch.conf_version != other.epoch.conf_version {
            proof {
                assert(self@ != other@);
            }
            return false;
        }
        if self.peers.len() != other.peers.len() {
            proof {
                assert(self@ != other@);
            }
            return false;
        }
        let mut i: usize = 0;
        while i < self.peers.len()
            invariant
                i <= self.peers.len(),
                self.peers@.len() == other.peers@.len(),
                forall|j: int| 0 <= j < i ==> self.peers@[j] == other.peers@[j],
            decreases self.peers.len() - i,
        {
            let a = self.peers[i];
            let b = other.peers[i];
            if a.id != b.id || a.store_id != b.store_id || a.node_id != b.node_id {
                proof {
                    assert(self.peers@[i as int] != other.peers@[i as int]);
                    assert(self@ != other@);
                }
                return false;
            }
            i = i + 1;
        }
        proof {
            assert(self.peers@ =~= other.peers@);
            assert(self@ =~= other@);
        }
        true
    }
}

} // verus!
