//! Durable per-region raft state: the log entries, the hard state that
//! must be persisted before any message referencing it is sent, the apply
//! progress, and snapshot build/apply.

use vstd::prelude::*;
use crate::engine::Backend;
use crate::region::{Region, RegionView};
use crate::rlog::{clone_entries_from, log_contiguous, log_view, terms_monotone, Entry, EntryView};

verus! {

/// The smaller of two indices.
pub open spec fn umin(a: u64, b: u64) -> u64 {
    if a < b {
        a
    } else {
        b
    }
}

/// Raft hard state: `(term, vote, commit_index)`. `vote` is a peer id,
/// zero when no vote was cast this term.
#[derive(Clone, Copy, Debug, PartialEq, Eq, Structural)]
pub struct HardState {
    pub term: u64,
    pub vote: u64,
    pub commit: u64,
}

/// Apply progress, persisted separately from the hard state.
#[derive(Clone, Copy, Debug, PartialEq, Eq, Structural)]
pub struct ApplyState {
    pub applied_index: u64,
    pub applied_term: u64,
    pub truncated_index: u64,
    pub truncated_term: u64,
}

/// A point-in-time serialization of a region's backend state plus the
/// metadata a fresh replica needs to resume from it.
pub struct Snapshot {
    pub region: Region,
    pub applied_index: u64,
    pub applied_term: u64,
    pub data: Backend,
}

/// The mathematical value of a snapshot.
pub struct SnapshotView {
    pub region: RegionView,
    pub applied_index: u64,
    pub applied_term: u64,
    pub data: Map<Seq<u8>, Seq<u8>>,
}

impl View for Snapshot {
    type V = SnapshotView;

    open spec fn view(&self) -> SnapshotView {
        SnapshotView {
            region: self.region@,
            applied_index: self.applied_index,
            applied_term: self.applied_term,
            data: self.data@,
        }
    }
}

/// Durable log and snapshot management for one region.
pub struct PeerStorage {
    pub region_id: u64,
    pub entries: Vec<Entry>,
    pub hard_state: HardState,
    pub apply_state: ApplyState,
}

impl PeerStorage {
    /// The log as mathematical values.
    pub open spec fn log(self) -> Seq<EntryView> {
        log_view(self.entries@)
    }

    /// The index of the oldest entry still in the log.
    pub open spec fn spec_first_index(self) -> int {
        self.apply_state.truncated_index + 1
    }

    /// The index of the newest entry in the log (the truncation point when
    /// the log is empty).
    pub open spec fn spec_last_index(self) -> int {
        self.apply_state.truncated_index + self.entries@.len()
    }

    /// The term of the entry at raft index `i`, for indices the storage
    /// still knows: the truncation point or a live entry.
    pub open spec fn spec_term_at(self, i: int) -> u64 {
        if i == self.apply_state.truncated_index {
            self.apply_state.truncated_term
        } else {
            self.log()[i - self.apply_state.truncated_index - 1].term
        }
    }

    /// Well-formedness: the log is contiguous from the truncation point,
    /// terms never decrease along it, the hard-state term bounds every log
    /// term, and apply never overtakes commit, which never overtakes the
    /// log end.
    pub open spec fn wf(self) -> bool {
        &&& log_contiguous(self.log(), self.spec_first_index())
        &&& terms_monotone(self.log())
        &&& (self.entries@.len() > 0 ==> self.apply_state.truncated_term <= self.log()[0].term)
        &&& (self.entries@.len() > 0 ==> self.log().last().term <= self.hard_state.term)
        &&& self.apply_state.truncated_term <= self.hard_state.term
        &&& self.apply_state.applied_term <= self.hard_state.term
        &&& self.apply_state.truncated_index <= self.apply_state.applied_index
        &&& self.apply_state.applied_index <= self.hard_state.commit
        &&& self.hard_state.commit <= self.spec_last_index()
        &&& self.spec_last_index() < u64::MAX
    }

    /// A fresh, empty storage for a region that has applied nothing.
    pub fn init(region_id: u64) -> (r: PeerStorage)
        ensures
            r.wf(),
            r.region_id == region_id,
            r.entries@.len() == 0,
            r.hard_state == (HardState { term: 0, vote: 0, commit: 0 }),
            r.apply_state == (ApplyState {
                applied_index: 0,
                applied_term: 0,
                truncated_index: 0,
                truncated_term: 0,
            }),
    {
        PeerStorage {
            region_id,
            entries: Vec::new(),
            hard_state: HardState { term: 0, vote: 0, commit: 0 },
            apply_state: ApplyState {
                applied_index: 0,
                applied_term: 0,
                truncated_index: 0,
                truncated_term: 0,
            },
        }
    }

    /// The index of the oldest entry still in the log.
    pub fn first_index(&self) -> (r: u64)
        requires
            self.wf(),
        ensures
            r == self.spec_first_index(),
    {
        self.apply_state.truncated_index + 1
    }

    /// The index of the newest entry in the log.
    pub fn last_index(&self) -> (r: u64)
        requires
            self.wf(),
        ensures
            r == self.spec_last_index(),
    {
        self.apply_state.truncated_index + (self.entries.len() as u64)
    }

    /// The position in `entries` of the entry with raft index `idx`.
    fn entry_pos(&self, idx: u64) -> (pos: usize)
        requires
            self.wf(),
            self.spec_first_index() <= idx <= self.spec_last_index(),
        ensures
            pos == idx - self.apply_state.truncated_index - 1,
            pos < self.entries@.len(),
    {
        let off: u64 = idx - self.apply_state.truncated_index - 1;
        let n: usize = self.entries.len();
        proof {
            assert(off < n as u64);
        }
        off as usize
    }

    /// The term of the entry at `idx`: known for the truncation point and
    /// every live entry, unknown (compacted or beyond the end) otherwise.
    pub fn term(&self, idx: u64) -> (r: Option<u64>)
        requires
            self.wf(),
        ensures
            match r {
                Some(t) => self.apply_state.truncated_index <= idx <= self.spec_last_index()
                    && t == self.spec_term_at(idx as int),
                None => idx < self.apply_state.truncated_index || idx > self.spec_last_index(),
            },
    {
        if idx == self.apply_state.truncated_index {
            return Some(self.apply_state.truncated_term);
        }
        if idx < self.apply_state.truncated_index {
            return None;
        }
        let last = self.last_index();
        if idx > last {
            return None;
        }
        let pos = self.entry_pos(idx);
        Some(self.entries[pos].term)
    }

    /// Records a vote and a (never decreasing) term.
    pub fn set_term_vote(&mut self, term: u64, vote: u64)
        requires
            old(self).wf(),
            term >= old(self).hard_state.term,
        ensures
            final(self).wf(),
            final(self).hard_state == (HardState {
                term,
                vote,
                commit: old(self).hard_state.commit,
            }),
            final(self).entries@ == old(self).entries@,
            final(self).apply_state == old(self).apply_state,
            final(self).region_id == old(self).region_id,
    {
        self.hard_state = HardState { term, vote, commit: self.hard_state.commit };
    }

    /// Advances the commit index; commit never retreats and never passes
    /// the end of the log.
    pub fn set_commit(&mut self, commit: u64)
        requires
            old(self).wf(),
            old(self).hard_state.commit <= commit <= old(self).spec_last_index(),
        ensures
            final(self).wf(),
            final(self).hard_state == (HardState {
                term: old(self).hard_state.term,
                vote: old(self).hard_state.vote,
                commit,
            }),
            final(self).entries@ == old(self).entries@,
            final(self).apply_state == old(self).apply_state,
            final(self).region_id == old(self).region_id,
    {
        self.hard_state = HardState {
            term: self.hard_state.term,
            vote: self.hard_state.vote,
            commit,
        };
    }

    /// Records apply progress: apply trails commit and never retreats.
    pub fn advance_applied(&mut self, idx: u64, term: u64)
        requires
            old(self).wf(),
            old(self).apply_state.applied_index <= idx <= old(self).hard_state.commit,
            term == old(self).spec_term_at(idx as int),
        ensures
            final(self).wf(),
            final(self).apply_state == (ApplyState {
                applied_index: idx,
                applied_term: term,
                truncated_index: old(self).apply_state.truncated_index,
                truncated_term: old(self).apply_state.truncated_term,
            }),
            final(self).entries@ == old(self).entries@,
            final(self).hard_state == old(self).hard_state,
            final(self).region_id == old(self).region_id,
    {
        proof {
            if idx > self.apply_state.truncated_index && self.entries@.len() > 0 {
                let p = idx - self.apply_state.truncated_index - 1;
                assert(self.log()[p].term <= self.log()[self.log().len() - 1].term);
            }
        }
        self.apply_state = ApplyState {
            applied_index: idx,
            applied_term: term,
            truncated_index: self.apply_state.truncated_index,
            truncated_term: self.apply_state.truncated_term,
        };
    }

    /// Persists entries and the hard state together: the log is cut back
    /// to just before the first new entry and the new entries follow it.
    /// The caller persists the result before releasing any message that
    /// references these entries.
    #[verifier::rlimit(100)]
    #[verifier::spinoff_prover]
    pub fn append(&mut self, ents: &Vec<Entry>, hs: HardState)
        requires
            old(self).wf(),
            ents@.len() > 0 ==> {
                let f = ents@[0].index as int;
                &&& log_contiguous(log_view(ents@), f)
                &&& terms_monotone(log_view(ents@))
                &&& old(self).spec_first_index() <= f <= old(self).spec_last_index() + 1
                &&& old(self).spec_term_at(f - 1) <= log_view(ents@)[0].term
                &&& log_view(ents@).last().term <= hs.term
                &&& f + ents@.len() <= u64::MAX
                &&& f > old(self).hard_state.commit
            },
            hs.term >= old(self).hard_state.term,
            hs.commit >= old(self).hard_state.commit,
            hs.commit <= if ents@.len() == 0 {
                old(self).spec_last_index()
            } else {
                ents@[0].index - 1 + ents@.len()
            },
        ensures
            final(self).wf(),
            ents@.len() == 0 ==> final(self).log() == old(self).log(),
            ents@.len() > 0 ==> final(self).log() == old(self).log().take(
                ents@[0].index - old(self).apply_state.truncated_index - 1,
            ) + log_view(ents@),
            final(self).hard_state == hs,
            final(self).apply_state == old(self).apply_state,
            final(self).region_id == old(self).region_id,
    {
        if ents.len() > 0 {
            let f: u64 = ents[0].index;
            let keep64: u64 = f - self.apply_state.truncated_index - 1;
            let n: usize = self.entries.len();
            proof {
                assert(keep64 <= n as u64);
            }
            let keep: usize = keep64 as usize;
            self.entries.truncate(keep);
            proof {
                assert(self.entries@ =~= old(self).entries@.take(keep as int));
                assert(log_view(self.entries@) =~= old(self).log().take(keep as int) + log_view(
                    ents@,
                ).take(0));
            }
            let mut k: usize = 0;
            while k < ents.len()
                invariant
                    k <= ents@.len(),
                    keep == ents@[0].index - old(self).apply_state.truncated_index - 1,
                    self.entries@.len() == keep + k,
                    log_view(self.entries@) == old(self).log().take(keep as int) + log_view(
                        ents@,
                    ).take(k as int),
                    self.region_id == old(self).region_id,
                    self.hard_state == old(self).hard_state,
                    self.apply_state == old(self).apply_state,
                decreases ents@.len() - k,
            {
                let ghost pre = self.entries@;
                let e = crate::rlog::clone_entry(&ents[k]);
                proof {
                    assert(e@ == log_view(ents@)[k as int]);
                }
                self.entries.push(e);
                proof {
                    assert(self.entries@ == pre.push(e));
                    assert(log_view(pre) == old(self).log().take(keep as int) + log_view(
                        ents@,
                    ).take(k as int));
                    assert(log_view(pre).len() == pre.len());
                    assert(old(self).log().len() == old(self).entries@.len());
                    assert(pre.len() == keep + k);
                    assert forall|j: int| 0 <= j < self.entries@.len() implies
                        #[trigger] log_view(self.entries@)[j] == (old(self).log().take(keep as int)
                            + log_view(ents@).take(k + 1))[j] by {
                        if j < pre.len() {
                            assert(self.entries@[j] == pre[j]);
                            assert(log_view(pre)[j] == (old(self).log().take(keep as int)
                                + log_view(ents@).take(k as int))[j]);
                        } else {
                            assert(self.entries@[j] == e);
                        }
                    }
                    assert(log_view(self.entries@) =~= old(self).log().take(keep as int)
                        + log_view(ents@).take(k + 1));
                }
                k = k + 1;
            }
            proof {
                assert(log_view(ents@).take(ents@.len() as int) =~= log_view(ents@));
            }
        }
        self.hard_state = hs;
        proof {
            self.lemma_wf_after_splice(*old(self), ents@);
        }
    }

    /// After a cut-and-splice append the well-formedness invariant holds
    /// again.
    proof fn lemma_wf_after_splice(self, pre: PeerStorage, ents: Seq<Entry>)
        requires
            pre.wf(),
            self.apply_state == pre.apply_state,
            self.region_id == pre.region_id,
            self.hard_state.term >= pre.hard_state.term,
            ents.len() == 0 ==> self.log() == pre.log() && self.hard_state.commit
                <= pre.spec_last_index(),
            ents.len() > 0 ==> {
                let f = ents[0].index as int;
                &&& log_contiguous(log_view(ents), f)
                &&& terms_monotone(log_view(ents))
                &&& pre.spec_first_index() <= f <= pre.spec_last_index() + 1
                &&& pre.spec_term_at(f - 1) <= log_view(ents)[0].term
                &&& log_view(ents).last().term <= self.hard_state.term
                &&& f + ents.len() <= u64::MAX
                &&& self.log() == pre.log().take(f - pre.apply_state.truncated_index - 1)
                    + log_view(ents)
                &&& self.hard_state.commit <= f - 1 + ents.len()
            },
            self.hard_state.commit >= pre.hard_state.commit,
        ensures
            self.wf(),
    {
        if ents.len() == 0 {
            assert(self.entries@.len() == pre.entries@.len()) by {
                assert(self.log().len() == pre.log().len());
            }
            if self.entries@.len() > 0 {
                assert(self.log()[0] == pre.log()[0]);
                assert(self.log().last() == pre.log().last());
            }
        } else {
            let f = ents[0].index as int;
            let ti = pre.apply_state.truncated_index as int;
            let keep = f - ti - 1;
            let lg = self.log();
            assert(lg.len() == keep + ents.len());
            assert forall|i: int| 0 <= i < lg.len() implies #[trigger] lg[i].index == ti + 1 + i by {
                if i < keep {
                    assert(lg[i] == pre.log()[i]);
                } else {
                    assert(lg[i] == log_view(ents)[i - keep]);
                }
            }
            assert forall|i: int, j: int| 0 <= i <= j < lg.len() implies #[trigger] lg[i].term
                <= #[trigger] lg[j].term by {
                if j < keep {
                    assert(lg[i] == pre.log()[i]);
                    assert(lg[j] == pre.log()[j]);
                } else if i >= keep {
                    assert(lg[i] == log_view(ents)[i - keep]);
                    assert(lg[j] == log_view(ents)[j - keep]);
                } else {
                    assert(lg[i] == pre.log()[i]);
                    assert(lg[j] == log_view(ents)[j - keep]);
                    assert(pre.log()[i].term <= pre.log()[keep - 1].term);
                    assert(pre.spec_term_at(f - 1) == pre.log()[keep - 1].term);
                    assert(log_view(ents)[0].term <= log_view(ents)[j - keep].term);
                }
            }
            if keep == 0 {
                assert(self.apply_state.truncated_term <= lg[0].term) by {
                    assert(lg[0] == log_view(ents)[0]);
                    assert(pre.spec_term_at(f - 1) == pre.apply_state.truncated_term);
                }
            } else {
                assert(lg[0] == pre.log()[0]);
            }
            assert(lg.last() == log_view(ents).last());
        }
    }

    /// Removes log entries at or before `to_index`, once they are covered
    /// by apply progress; the truncation point remembers their last term.
    pub fn compact(&mut self, to_index: u64)
        requires
            old(self).wf(),
            old(self).apply_state.truncated_index < to_index <= old(
                self,
            ).apply_state.applied_index,
        ensures
            final(self).wf(),
            final(self).log() == old(self).log().skip(
                to_index - old(self).apply_state.truncated_index,
            ),
            final(self).apply_state == (ApplyState {
                applied_index: old(self).apply_state.applied_index,
                applied_term: old(self).apply_state.applied_term,
                truncated_index: to_index,
                truncated_term: old(self).spec_term_at(to_index as int),
            }),
            final(self).hard_state == old(self).hard_state,
            final(self).region_id == old(self).region_id,
            final(self).spec_last_index() == old(self).spec_last_index(),
    {
        let pos = self.entry_pos(to_index);
        let t = self.entries[pos].term;
        let n: usize = self.entries.len();
        proof {
            assert(pos < n);
        }
        let skip: usize = pos + 1;
        let rest = clone_entries_from(&self.entries, skip);
        self.entries = rest;
        self.apply_state = ApplyState {
            applied_index: self.apply_state.applied_index,
            applied_term: self.apply_state.applied_term,
            truncated_index: to_index,
            truncated_term: t,
        };
        proof {
            let lg = self.log();
            assert forall|i: int| 0 <= i < lg.len() implies #[trigger] lg[i].index == to_index + 1
                + i by {
                assert(lg[i] == old(self).log()[skip + i]);
            }
            assert forall|i: int, j: int| 0 <= i <= j < lg.len() implies #[trigger] lg[i].term
                <= #[trigger] lg[j].term by {
                assert(lg[i] == old(self).log()[skip + i]);
                assert(lg[j] == old(self).log()[skip + j]);
            }
            if lg.len() > 0 {
                assert(lg[0] == old(self).log()[skip as int]);
                assert(lg.last() == old(self).log().last());
            }
        }
    }

    /// Handles one replicated append from a leader: accepted exactly when
    /// our log still knows the index just before the new entries and its
    /// term matches. On acceptance the matching prefix of the new entries
    /// is kept as it stands, the log is cut at the first conflicting entry
    /// and the remainder of the new entries follows it; the commit index
    /// advances to the leader's, capped at the last new entry. Returns how
    /// many of the new entries were already present.
    pub fn maybe_append(
        &mut self,
        prev_index: u64,
        prev_term: u64,
        ents: &Vec<Entry>,
        leader_commit: u64,
    ) -> (r: Option<usize>)
        requires
            old(self).wf(),
            log_contiguous(log_view(ents@), prev_index + 1),
            terms_monotone(log_view(ents@)),
            ents@.len() > 0 ==> prev_term <= log_view(ents@)[0].term,
            ents@.len() > 0 ==> log_view(ents@).last().term <= old(self).hard_state.term,
            prev_index + 1 + ents@.len() <= u64::MAX,
            // a term conflict inside the committed prefix would be a
            // log-matching violation, which is fatal rather than handled:
            forall|k: int|
                0 <= k < ents@.len() && prev_index + 1 + k <= old(self).hard_state.commit
                    && old(self).spec_first_index() <= prev_index + 1 + k <= old(
                    self,
                ).spec_last_index() ==> old(self).spec_term_at(prev_index + 1 + k)
                    == log_view(ents@)[k].term,
        ensures
            final(self).wf(),
            final(self).region_id == old(self).region_id,
            final(self).apply_state == old(self).apply_state,
            final(self).hard_state.term == old(self).hard_state.term,
            final(self).hard_state.vote == old(self).hard_state.vote,
            r is None ==> final(self).log() == old(self).log() && final(self).hard_state == old(
                self,
            ).hard_state,
            (r is None) == !(old(self).apply_state.truncated_index <= prev_index && prev_index
                <= old(self).spec_last_index() && old(self).spec_term_at(prev_index as int)
                == prev_term),
            r matches Some(c) ==> {
                &&& c <= ents@.len()
                &&& forall|k: int|
                    0 <= k < c ==> prev_index + 1 + k <= old(self).spec_last_index() && old(
                        self,
                    ).spec_term_at(prev_index + 1 + k) == (#[trigger] log_view(ents@)[k]).term
                // the kept prefix is maximal: the log is cut only at a real
                // conflict or past its end, never over a matching entry
                &&& (c < ents@.len() ==> prev_index + 1 + c > old(self).spec_last_index() || old(
                    self,
                ).spec_term_at(prev_index + 1 + c) != log_view(ents@)[c as int].term)
                &&& (c < ents@.len() ==> final(self).log() == old(self).log().take(
                    prev_index + c - old(self).apply_state.truncated_index,
                ) + log_view(ents@).skip(c as int) && final(self).spec_last_index() == prev_index
                    + ents@.len())
                &&& (c == ents@.len() ==> final(self).log() == old(self).log())
                &&& final(self).hard_state.commit == if old(self).hard_state.commit >= umin(
                    leader_commit,
                    (prev_index + ents@.len()) as u64,
                ) {
                    old(self).hard_state.commit
                } else {
                    umin(leader_commit, (prev_index + ents@.len()) as u64)
                }
            },
    {
        match self.term(prev_index) {
            None => {
                return None;
            },
            Some(t) => {
                if t != prev_term {
                    return None;
                }
            },
        }
        let ghost pre = *self;
        let mut c: usize = 0;
        let mut conflict: bool = false;
        let mut hit_end: bool = false;
        while c < ents.len() && !conflict && !hit_end
            invariant
                *self == pre,
                pre.wf(),
                pre == *old(self),
                pre.apply_state.truncated_index <= prev_index <= pre.spec_last_index(),
                pre.spec_term_at(prev_index as int) == prev_term,
                c <= ents@.len(),
                prev_index + c <= pre.spec_last_index(),
                prev_index + 1 + ents@.len() <= u64::MAX,
                forall|k: int|
                    0 <= k < c ==> prev_index + 1 + k <= pre.spec_last_index()
                        && pre.spec_term_at(prev_index + 1 + k) == (#[trigger] log_view(
                        ents@,
                    )[k]).term,
                conflict ==> c < ents@.len() && pre.spec_first_index() <= prev_index + 1 + c
                    <= pre.spec_last_index() && pre.spec_term_at(prev_index + 1 + c) != log_view(
                    ents@,
                )[c as int].term,
                hit_end ==> c < ents@.len() && prev_index + c == pre.spec_last_index(),
            decreases ents@.len() - c + (if conflict || hit_end { 0int } else { 1int }),
        {
            let idx = prev_index + 1 + (c as u64);
            let last = self.last_index();
            if idx > last {
                hit_end = true;
            } else {
                let pos = self.entry_pos(idx);
                if self.entries[pos].term != ents[c].term {
                    conflict = true;
                } else {
                    c = c + 1;
                }
            }
        }
        let ghost spliced = log_view(ents@).skip(c as int);
        if conflict {
            let keep64: u64 = prev_index + (c as u64) - self.apply_state.truncated_index;
            let n: usize = self.entries.len();
            proof {
                assert(keep64 <= n as u64);
            }
            self.entries.truncate(keep64 as usize);
            proof {
                assert(self.entries@ =~= pre.entries@.take(keep64 as int));
            }
        }
        if conflict || hit_end {
            proof {
                assert(log_view(self.entries@) =~= pre.log().take(
                    prev_index + c - pre.apply_state.truncated_index,
                ) + spliced.take(0));
            }
            let mut k: usize = c;
            while k < ents.len()
                invariant
                    c <= k <= ents@.len(),
                    spliced == log_view(ents@).skip(c as int),
                    self.entries@.len() == prev_index + c - pre.apply_state.truncated_index + (k
                        - c),
                    log_view(self.entries@) == pre.log().take(
                        prev_index + c - pre.apply_state.truncated_index,
                    ) + spliced.take(k - c),
                    pre.log().len() == pre.entries@.len(),
                    prev_index + c - pre.apply_state.truncated_index <= pre.log().len(),
                    self.region_id == pre.region_id,
                    self.hard_state == pre.hard_state,
                    self.apply_state == pre.apply_state,
                decreases ents@.len() - k,
            {
                let ghost prev_entries = self.entries@;
                let e = crate::rlog::clone_entry(&ents[k]);
                proof {
                    assert(e@ == log_view(ents@)[k as int]);
                    assert(e@ == spliced[k - c]);
                }
                self.entries.push(e);
                proof {
                    assert(self.entries@ == prev_entries.push(e));
                    assert(log_view(prev_entries) == pre.log().take(
                        prev_index + c - pre.apply_state.truncated_index,
                    ) + spliced.take(k - c));
                    assert(log_view(prev_entries).len() == prev_entries.len());
                    assert(prev_entries.len() == prev_index + c - pre.apply_state.truncated_index
                        + (k - c));
                    assert forall|j: int| 0 <= j < self.entries@.len() implies
                        #[trigger] log_view(self.entries@)[j] == (pre.log().take(
                        prev_index + c - pre.apply_state.truncated_index,
                    ) + spliced.take(k + 1 - c))[j] by {
                        if j < prev_entries.len() {
                            assert(self.entries@[j] == prev_entries[j]);
                            assert(log_view(prev_entries)[j] == (pre.log().take(
                                prev_index + c - pre.apply_state.truncated_index,
                            ) + spliced.take(k - c))[j]);
                        } else {
                            assert(self.entries@[j] == e);
                        }
                    }
                    assert(log_view(self.entries@) =~= pre.log().take(
                        prev_index + c - pre.apply_state.truncated_index,
                    ) + spliced.take(k + 1 - c));
                }
                k = k + 1;
            }
            proof {
                assert(spliced.take(ents@.len() - c) =~= spliced);
                assert(log_contiguous(spliced, prev_index + 1 + c)) by {
                    assert forall|i: int| 0 <= i < spliced.len() implies #[trigger] spliced[i].index
                        == prev_index + 1 + c + i by {
                        assert(spliced[i] == log_view(ents@)[c + i]);
                    }
                }
                assert(terms_monotone(spliced)) by {
                    assert forall|i: int, j: int| 0 <= i <= j < spliced.len() implies
                        #[trigger] spliced[i].term <= #[trigger] spliced[j].term by {
                        assert(spliced[i] == log_view(ents@)[c + i]);
                        assert(spliced[j] == log_view(ents@)[c + j]);
                    }
                }
                assert(pre.spec_term_at(prev_index + c) <= spliced[0].term) by {
                    if c > 0 {
                        assert(pre.spec_term_at(prev_index + c) == log_view(ents@)[c - 1].term);
                        assert(log_view(ents@)[c - 1].term <= log_view(ents@)[c as int].term);
                        assert(spliced[0] == log_view(ents@)[c as int]);
                    } else {
                        assert(spliced[0] == log_view(ents@)[0]);
                    }
                }
                assert(spliced.last() == log_view(ents@).last()) by {
                    assert(spliced.last() == log_view(ents@)[c + (spliced.len() - 1)]);
                }
                assert(self.hard_state.commit <= prev_index + c) by {
                    if conflict {
                        let kc = c as int;
                        if prev_index + 1 + kc <= pre.hard_state.commit {
                            assert(pre.spec_term_at(prev_index + 1 + kc) == log_view(
                                ents@,
                            )[kc].term);
                        }
                    }
                }
                self.lemma_wf_after_suffix_splice(pre, spliced, prev_index + 1 + c);
            }
        }
        let len64: u64 = ents.len() as u64;
        let reach: u64 = prev_index + len64;
        let cap: u64 = if leader_commit < reach {
            leader_commit
        } else {
            reach
        };
        if cap > self.hard_state.commit {
            proof {
                if !(conflict || hit_end) {
                    assert(c == ents@.len());
                    assert(cap <= pre.spec_last_index());
                }
            }
            self.set_commit(cap);
        }
        Some(c)
    }

    /// After cutting the log at `first - 1` and splicing a contiguous,
    /// term-monotone suffix starting at `first`, well-formedness holds
    /// again. The hard state is unchanged and commit stays at or below the
    /// splice point.
    proof fn lemma_wf_after_suffix_splice(self, pre: PeerStorage, suffix: Seq<EntryView>, first: int)
        requires
            pre.wf(),
            self.apply_state == pre.apply_state,
            self.region_id == pre.region_id,
            self.hard_state == pre.hard_state,
            suffix.len() > 0,
            log_contiguous(suffix, first),
            terms_monotone(suffix),
            pre.spec_first_index() <= first <= pre.spec_last_index() + 1,
            pre.spec_term_at(first - 1) <= suffix[0].term,
            suffix.last().term <= self.hard_state.term,
            first + suffix.len() <= u64::MAX,
            self.log() == pre.log().take(first - pre.apply_state.truncated_index - 1) + suffix,
            self.hard_state.commit <= first - 1,
            self.apply_state.applied_index <= self.hard_state.commit,
        ensures
            self.wf(),
            self.spec_last_index() == first - 1 + suffix.len(),
    {
        let ti = pre.apply_state.truncated_index as int;
        let keep = first - ti - 1;
        let lg = self.log();
        assert(lg.len() == keep + suffix.len());
        assert forall|i: int| 0 <= i < lg.len() implies #[trigger] lg[i].index == ti + 1 + i by {
            if i < keep {
                assert(lg[i] == pre.log()[i]);
            } else {
                assert(lg[i] == suffix[i - keep]);
            }
        }
        assert forall|i: int, j: int| 0 <= i <= j < lg.len() implies #[trigger] lg[i].term
            <= #[trigger] lg[j].term by {
            if j < keep {
                assert(lg[i] == pre.log()[i]);
                assert(lg[j] == pre.log()[j]);
            } else if i >= keep {
                assert(lg[i] == suffix[i - keep]);
                assert(lg[j] == suffix[j - keep]);
            } else {
                assert(lg[i] == pre.log()[i]);
                assert(lg[j] == suffix[j - keep]);
                assert(pre.log()[i].term <= pre.log()[keep - 1].term);
                assert(pre.spec_term_at(first - 1) == pre.log()[keep - 1].term);
                assert(suffix[0].term <= suffix[j - keep].term);
            }
        }
        if keep == 0 {
            assert(self.apply_state.truncated_term <= lg[0].term) by {
                assert(lg[0] == suffix[0]);
                assert(pre.spec_term_at(first - 1) == pre.apply_state.truncated_term);
            }
        } else {
            assert(lg[0] == pre.log()[0]);
        }
        assert(lg.last() == suffix.last());
    }

    /// Serializes the region's backend state together with the applied
    /// index and term into a snapshot artifact.
    pub fn build_snapshot(&self, region: &Region, backend: &Backend) -> (snap: Snapshot)
        requires
            self.wf(),
            region@.id == self.region_id,
        ensures
            snap@.region == region@,
            snap@.applied_index == self.apply_state.applied_index,
            snap@.applied_term == self.apply_state.applied_term,
            snap@.data == backend@,
    {
        Snapshot {
            region: region.clone_region(),
            applied_index: self.apply_state.applied_index,
            applied_term: self.apply_state.applied_term,
            data: backend.clone_all(),
        }
    }

    /// Replaces the raft and apply metadata from a snapshot, atomically
    /// with the backend replacement the apply side performs: the log is
    /// emptied, truncation and apply progress move to the snapshot's
    /// applied point, and commit follows it.
    pub fn apply_snapshot(&mut self, snap: &Snapshot)
        requires
            old(self).wf(),
            snap@.applied_index >= old(self).hard_state.commit,
            snap@.applied_term <= old(self).hard_state.term,
            snap@.applied_index < u64::MAX,
        ensures
            final(self).wf(),
            final(self).entries@.len() == 0,
            final(self).apply_state == (ApplyState {
                applied_index: snap.applied_index,
                applied_term: snap.applied_term,
                truncated_index: snap.applied_index,
                truncated_term: snap.applied_term,
            }),
            final(self).hard_state == (HardState {
                term: old(self).hard_state.term,
                vote: old(self).hard_state.vote,
                commit: snap.applied_index,
            }),
            final(self).region_id == old(self).region_id,
    {
        self.entries = Vec::new();
        self.apply_state = ApplyState {
            applied_index: snap.applied_index,
            applied_term: snap.applied_term,
            truncated_index: snap.applied_index,
            truncated_term: snap.applied_term,
        };
        self.hard_state = HardState {
            term: self.hard_state.term,
            vote: self.hard_state.vote,
            commit: snap.applied_index,
        };
    }

    /// At every instant, apply trails commit, which trails the log end.
    pub proof fn lemma_order_invariant(self)
        requires
            self.wf(),
        ensures
            self.apply_state.applied_index <= self.hard_state.commit,
            self.hard_state.commit <= self.spec_last_index(),
    {
    }
}

} // verus!
