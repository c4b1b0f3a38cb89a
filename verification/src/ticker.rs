//! The periodic driver: one logical clock fans tick events out to all
//! live peers, so no per-region timer objects exist. Drift beyond one
//! interval coalesces into a single tick — there is no catch-up burst.

use vstd::prelude::*;
use crate::peer::PeerFsm;

verus! {

/// A logical periodic clock with a configurable interval.
pub struct Ticker {
    pub interval: u64,
    pub last_fire: u64,
}

impl Ticker {
    /// A ticker is well formed when its interval is positive.
    pub open spec fn wf(self) -> bool {
        self.interval > 0
    }

    /// A fresh ticker that last fired at time zero.
    pub fn new(interval: u64) -> (r: Ticker)
        requires
            interval > 0,
        ensures
            r.wf(),
            r.interval == interval,
            r.last_fire == 0,
    {
        Ticker { interval, last_fire: 0 }
    }

    /// Advances the clock to `now` and says whether a tick fires: exactly
    /// when at least one interval has passed since the last firing. A
    /// delay of many intervals still fires only once.
    pub fn advance(&mut self, now: u64) -> (fired: bool)
        requires
            old(self).wf(),
            now >= old(self).last_fire,
        ensures
            final(self).wf(),
            final(self).interval == old(self).interval,
            fired == (now - old(self).last_fire >= old(self).interval),
            fired ==> final(self).last_fire == now,
            !fired ==> final(self).last_fire == old(self).last_fire,
    {
        if now - self.last_fire >= self.interval {
            self.last_fire = now;
            true
        } else {
            false
        }
    }
}

/// Fans one tick out to every live peer: each advances its own election
/// or heartbeat bookkeeping, no peer is skipped, and none is disturbed
/// beyond what its own `tick` does — region, apply progress and log are
/// untouched and the term never retreats.
pub fn fan_out(peers: &mut Vec<PeerFsm>)
    requires
        forall|i: int| 0 <= i < old(peers)@.len() ==> (#[trigger] old(peers)@[i]).wf(),
    ensures
        final(peers)@.len() == old(peers)@.len(),
        forall|i: int|
            0 <= i < old(peers)@.len() ==> {
                let p = #[trigger] final(peers)@[i];
                &&& p.wf()
                &&& p.region@ == old(peers)@[i].region@
                &&& p.store.hard_state.term >= old(peers)@[i].store.hard_state.term
                &&& p.store.apply_state == old(peers)@[i].store.apply_state
                &&& p.store.log() == old(peers)@[i].store.log()
            },
{
    let n: usize = peers.len();
    let mut i: usize = 0;
    while i < n
        invariant
            n == peers@.len(),
            n == old(peers)@.len(),
            i <= n,
            forall|j: int| 0 <= j < old(peers)@.len() ==> (#[trigger] old(peers)@[j]).wf(),
            forall|j: int| i <= j < n ==> #[trigger] peers@[j] == old(peers)@[j],
            forall|j: int|
                0 <= j < i ==> {
                    let p = #[trigger] peers@[j];
                    &&& p.wf()
                    &&& p.region@ == old(peers)@[j].region@
                    &&& p.store.hard_state.term >= old(peers)@[j].store.hard_state.term
                    &&& p.store.apply_state == old(peers)@[j].store.apply_state
                    &&& p.store.log() == old(peers)@[j].store.log()
                },
        decreases n - i,
    {
        let ghost pre = peers@;
        let p = &mut peers[i];
        p.tick();
        proof {
            assert(peers@ == pre.update(i as int, *final(p)));
        }
        i = i + 1;
    }
}

} // verus!
