//! Crash recovery: on process start the persisted region records are
//! scanned and each peer is reconstructed from its last persisted hard and
//! apply state. A record whose storage work was interrupted (crash in the
//! middle of a snapshot install or split) carries a staging marker and is
//! rolled back to its last known-consistent state rather than guessed
//! forward.

use vstd::prelude::*;
use crate::peer::{PeerFsm, Role};
use crate::peer_storage::PeerStorage;
use crate::region::Region;

verus! {

/// One region's persisted state as found on disk at startup: the last
/// known-consistent storage, possibly a staged (not yet committed) storage
/// from an interrupted snapshot install or split, and the staging marker
/// that says whether the staged state may be trusted.
pub struct PersistedRegion {
    pub region: Region,
    pub consistent: PeerStorage,
    pub staged: Option<PeerStorage>,
    /// True while a staging step is underway: the staged state is then
    /// incomplete and must be discarded.
    pub staging: bool,
}

/// The storage a record resumes from: the staged state only when it was
/// completed (no staging marker), the last consistent state otherwise.
pub open spec fn resumed_store(r: PersistedRegion) -> PeerStorage {
    if r.staging {
        r.consistent
    } else {
        match r.staged {
            Some(s) => s,
            None => r.consistent,
        }
    }
}

/// A record can be recovered when both its states are well formed and
/// belong to its region.
pub open spec fn record_wf(r: PersistedRegion) -> bool {
    &&& r.consistent.wf()
    &&& r.consistent.region_id == r.region@.id
    &&& r.consistent.hard_state.term < u64::MAX
    &&& (r.staged matches Some(s) ==> s.wf() && s.region_id == r.region@.id
        && s.hard_state.term < u64::MAX)
}

/// Reconstructs one peer from its persisted record: it resumes as a
/// follower with the resumed storage, a rolled-back record resuming from
/// its last consistent state.
pub fn recover_peer(
    rec: PersistedRegion,
    peer_id: u64,
    election_timeout: u64,
    heartbeat_interval: u64,
    lease_duration: u64,
    proposal_limit: usize,
) -> (p: PeerFsm)
    requires
        record_wf(rec),
        election_timeout > 0,
        heartbeat_interval > 0,
    ensures
        p.wf(),
        p.role is Follower,
        p.peer_id == peer_id,
        p.region@ == rec.region@,
        p.store == resumed_store(rec),
        p.msgs@.len() == 0,
{
    let PersistedRegion { region, consistent, staged, staging } = rec;
    let store = if staging {
        consistent
    } else {
        match staged {
            Some(s) => s,
            None => consistent,
        }
    };
    PeerFsm::new(
        peer_id,
        region,
        store,
        election_timeout,
        heartbeat_interval,
        lease_duration,
        proposal_limit,
    )
}

/// Reconstructs every persisted region, in order: the peer at position
/// `i` resumes record `i`, rolled back when its staging marker was set.
pub fn recover_all(
    mut records: Vec<PersistedRegion>,
    peer_id: u64,
    election_timeout: u64,
    heartbeat_interval: u64,
    lease_duration: u64,
    proposal_limit: usize,
) -> (ps: Vec<PeerFsm>)
    requires
        forall|i: int| 0 <= i < records@.len() ==> record_wf(#[trigger] records@[i]),
        election_timeout > 0,
        heartbeat_interval > 0,
    ensures
        ps@.len() == records@.len(),
        forall|i: int|
            0 <= i < records@.len() ==> {
                let p = #[trigger] ps@[i];
                &&& p.wf()
                &&& p.role is Follower
                &&& p.region@ == records@[i].region@
                &&& p.store == resumed_store(records@[i])
            },
{
    let ghost all = records@;
    let n: usize = records.len();
    proof {
        assert(all.len() == n);
    }
    let mut ps: Vec<PeerFsm> = Vec::new();
    let mut i: usize = 0;
    while records.len() > 0
        invariant
            all.len() <= usize::MAX,
            all.len() == i + records@.len(),
            records@ == all.skip(i as int),
            ps@.len() == i,
            forall|k: int| 0 <= k < all.len() ==> record_wf(#[trigger] all[k]),
            election_timeout > 0,
            heartbeat_interval > 0,
            forall|k: int|
                0 <= k < i ==> {
                    let p = #[trigger] ps@[k];
                    &&& p.wf()
                    &&& p.role is Follower
                    &&& p.region@ == all[k].region@
                    &&& p.store == resumed_store(all[k])
                },
        decreases records@.len(),
    {
        let rec = records.remove(0);
        proof {
            assert(rec == all[i as int]);
            assert(records@ =~= all.skip(i + 1));
        }
        let p = recover_peer(
            rec,
            peer_id,
            election_timeout,
            heartbeat_interval,
            lease_duration,
            proposal_limit,
        );
        ps.push(p);
        i = i + 1;
    }
    ps
}

} // verus!
