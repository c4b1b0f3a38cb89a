//! The inter-node transport model: per-destination bounded outbound
//! queues with batching, and connection retry with a backoff that doubles
//! up to a fixed ceiling. Delivery is unordered and unreliable; a full
//! queue rejects the send instead of growing without bound, and a failed
//! send is never fatal — the consensus protocol tolerates loss.

use vstd::prelude::*;
use crate::RaftError;
use crate::msg::RaftMessage;

verus! {

/// The outbound state for one destination store.
pub struct DestQueue {
    pub store_id: u64,
    pub msgs: Vec<RaftMessage>,
    pub backoff: u64,
}

/// The transport: one bounded queue per destination.
pub struct Transport {
    pub queues: Vec<DestQueue>,
    pub capacity: usize,
    pub base_backoff: u64,
    pub max_backoff: u64,
}

impl Transport {
    /// Well-formedness: queues stay within the capacity bound and every
    /// backoff stays at or below the ceiling.
    pub open spec fn wf(self) -> bool {
        &&& self.capacity > 0
        &&& 1 <= self.base_backoff <= self.max_backoff
        &&& forall|i: int|
            0 <= i < self.queues@.len() ==> (#[trigger] self.queues@[i]).msgs@.len()
                <= self.capacity && self.queues@[i].backoff <= self.max_backoff
    }

    /// A fresh transport with no connections.
    pub fn new(capacity: usize, base_backoff: u64, max_backoff: u64) -> (r: Transport)
        requires
            capacity > 0,
            1 <= base_backoff <= max_backoff,
        ensures
            r.wf(),
            r.queues@.len() == 0,
            r.capacity == capacity,
            r.base_backoff == base_backoff,
            r.max_backoff == max_backoff,
    {
        Transport { queues: Vec::new(), capacity, base_backoff, max_backoff }
    }

    /// The queue position for a destination, creating an empty queue on
    /// first contact.
    pub fn ensure_queue(&mut self, dest: u64) -> (i: usize)
        requires
            old(self).wf(),
        ensures
            final(self).wf(),
            i < final(self).queues@.len(),
            final(self).queues@[i as int].store_id == dest,
            final(self).capacity == old(self).capacity,
            final(self).max_backoff == old(self).max_backoff,
            final(self).base_backoff == old(self).base_backoff,
            final(self).queues@ == old(self).queues@ || (final(self).queues@.len()
                == old(self).queues@.len() + 1 && final(self).queues@[i as int].msgs@.len() == 0
                && final(self).queues@[i as int].backoff == 0),
            forall|j: int|
                0 <= j < old(self).queues@.len() ==> final(self).queues@[j] == old(
                    self,
                ).queues@[j],
    {
        let mut i: usize = 0;
        let n = self.queues.len();
        while i < n
            invariant
                n == self.queues@.len(),
                i <= n,
                *self == *old(self),
                old(self).wf(),
            decreases n - i,
        {
            if self.queues[i].store_id == dest {
                return i;
            }
            i = i + 1;
        }
        self.queues.push(DestQueue { store_id: dest, msgs: Vec::new(), backoff: 0 });
        proof {
            assert(self.queues@[n as int].msgs@.len() == 0);
            assert forall|j: int|
                0 <= j < self.queues@.len() implies (#[trigger] self.queues@[j]).msgs@.len()
                <= self.capacity && self.queues@[j].backoff <= self.max_backoff by {
                if j < old(self).queues@.len() {
                    assert(self.queues@[j] == old(self).queues@[j]);
                }
            }
        }
        n
    }

    /// Enqueues one message for the destination at queue position `i`:
    /// rejected, with the queue unchanged, exactly when the bounded queue
    /// is full — backpressure surfaces immediately as a retryable error.
    pub fn send_at(&mut self, i: usize, m: RaftMessage) -> (r: Result<(), RaftError>)
        requires
            old(self).wf(),
            i < old(self).queues@.len(),
        ensures
            final(self).wf(),
            final(self).queues@.len() == old(self).queues@.len(),
            final(self).capacity == old(self).capacity,
            (r is Err) == (old(self).queues@[i as int].msgs@.len() >= old(self).capacity),
            r is Err ==> r == Err::<(), RaftError>(RaftError::SendFailed) && *final(self) == *old(
                self,
            ),
            r is Ok ==> final(self).queues@[i as int].msgs@ == old(self).queues@[
                i as int
            ].msgs@.push(m) && final(self).queues@[i as int].store_id == old(self).queues@[
                i as int
            ].store_id && final(self).queues@[i as int].backoff == old(self).queues@[
                i as int
            ].backoff && (forall|j: int|
                0 <= j < old(self).queues@.len() && j != i ==> final(self).queues@[j] == old(
                    self,
                ).queues@[j]),
    {
        if self.queues[i].msgs.len() >= self.capacity {
            return Err(RaftError::SendFailed);
        }
        let q = &mut self.queues[i];
        q.msgs.push(m);
        Ok(())
    }

    /// Drains the whole queue for one destination: the messages leave in
    /// one batch, to go out in one network round-trip.
    pub fn flush(&mut self, i: usize) -> (batch: Vec<RaftMessage>)
        requires
            old(self).wf(),
            i < old(self).queues@.len(),
        ensures
            final(self).wf(),
            batch@ == old(self).queues@[i as int].msgs@,
            final(self).queues@.len() == old(self).queues@.len(),
            final(self).queues@[i as int].msgs@.len() == 0,
            final(self).queues@[i as int].store_id == old(self).queues@[i as int].store_id,
            final(self).queues@[i as int].backoff == old(self).queues@[i as int].backoff,
            forall|j: int|
                0 <= j < old(self).queues@.len() && j != i ==> final(self).queues@[j] == old(
                    self,
                ).queues@[j],
    {
        let q = &mut self.queues[i];
        let mut batch: Vec<RaftMessage> = Vec::new();
        core::mem::swap(&mut batch, &mut q.msgs);
        batch
    }

    /// Records a failed connection attempt: the retry backoff doubles,
    /// capped by the ceiling, and never disappears below the base.
    pub fn on_send_failure(&mut self, i: usize)
        requires
            old(self).wf(),
            i < old(self).queues@.len(),
        ensures
            final(self).wf(),
            final(self).queues@.len() == old(self).queues@.len(),
            final(self).queues@[i as int].backoff == if old(self).queues@[i as int].backoff == 0 {
                old(self).base_backoff as int
            } else if old(self).queues@[i as int].backoff > old(self).max_backoff / 2 {
                old(self).max_backoff as int
            } else {
                old(self).queues@[i as int].backoff * 2
            },
            final(self).queues@[i as int].backoff <= old(self).max_backoff,
            forall|j: int|
                0 <= j < old(self).queues@.len() && j != i ==> final(self).queues@[j] == old(
                    self,
                ).queues@[j],
    {
        let base = self.base_backoff;
        let half_ceiling = self.max_backoff / 2;
        let ceiling = self.max_backoff;
        let q = &mut self.queues[i];
        if q.backoff == 0 {
            q.backoff = base;
        } else if q.backoff > half_ceiling {
            q.backoff = ceiling;
        } else {
            q.backoff = q.backoff * 2;
        }
    }

    /// Records a successful round-trip: the backoff resets.
    pub fn on_send_ok(&mut self, i: usize)
        requires
            old(self).wf(),
            i < old(self).queues@.len(),
        ensures
            final(self).wf(),
            final(self).queues@.len() == old(self).queues@.len(),
            final(self).queues@[i as int].backoff == 0,
            forall|j: int|
                0 <= j < old(self).queues@.len() && j != i ==> final(self).queues@[j] == old(
                    self,
                ).queues@[j],
    {
        let q = &mut self.queues[i];
        q.backoff = 0;
    }
}

} // verus!
