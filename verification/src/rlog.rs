//! Raft log entries: ordered, durable records of commands, either normal
//! keyed writes or administrative commands, and the spec-level shape of a
//! well-formed log.

use vstd::prelude::*;
use crate::keys::clone_bytes;

verus! {

/// The payload of one log entry.
pub enum Command {
    /// A no-op entry; leaders append one at the start of their term.
    Noop,
    /// A keyed write against the region's backend state.
    Put { key: Vec<u8>, value: Vec<u8> },
    /// A keyed removal against the region's backend state.
    Delete { key: Vec<u8> },
    /// Administrative: split the region at `split_key`; the left half
    /// becomes a new region with the given id and peer ids.
    Split { split_key: Vec<u8>, new_region_id: u64, new_peer_ids: Vec<u64> },
    /// Administrative: add a replica to the region's membership.
    AddPeer { peer: crate::region::PeerMeta },
    /// Administrative: remove the replica with this id from the
    /// membership.
    RemovePeer { peer_id: u64 },
}

/// The mathematical value of a command.
pub enum CommandView {
    Noop,
    Put { key: Seq<u8>, value: Seq<u8> },
    Delete { key: Seq<u8> },
    Split { split_key: Seq<u8>, new_region_id: u64, new_peer_ids: Seq<u64> },
    AddPeer { peer: crate::region::PeerMeta },
    RemovePeer { peer_id: u64 },
}

impl View for Command {
    type V = CommandView;

    open spec fn view(&self) -> CommandView {
        match self {
            Command::Noop => CommandView::Noop,
            Command::Put { key, value } => (CommandView::Put { key: key@, value: value@ }),
            Command::Delete { key } => (CommandView::Delete { key: key@ }),
            Command::Split { split_key, new_region_id, new_peer_ids } => (CommandView::Split {
                split_key: split_key@,
                new_region_id: *new_region_id,
                new_peer_ids: new_peer_ids@,
            }),
            Command::AddPeer { peer } => (CommandView::AddPeer { peer: *peer }),
            Command::RemovePeer { peer_id } => (CommandView::RemovePeer { peer_id: *peer_id }),
        }
    }
}

/// One raft log entry: `(term, index, payload)`.
pub struct Entry {
    pub term: u64,
    pub index: u64,
    pub cmd: Command,
}

/// The mathematical value of a log entry.
pub struct EntryView {
    pub term: u64,
    pub index: u64,
    pub cmd: CommandView,
}

impl View for Entry {
    type V = EntryView;

    open spec fn view(&self) -> EntryView {
        EntryView { term: self.term, index: self.index, cmd: self.cmd@ }
    }
}

/// The log view of a vector of entries.
pub open spec fn log_view(entries: Seq<Entry>) -> Seq<EntryView> {
    entries.map(|i: int, e: Entry| e@)
}

/// The entries' indices are consecutive, starting at `first`.
pub open spec fn log_contiguous(log: Seq<EntryView>, first: int) -> bool {
    forall|i: int| 0 <= i < log.len() ==> #[trigger] log[i].index == first + i
}

/// The entries' terms never decrease along the log.
pub open spec fn terms_monotone(log: Seq<EntryView>) -> bool {
    forall|i: int, j: int| 0 <= i <= j < log.len() ==> #[trigger] log[i].term <= #[trigger] log[j].term
}

/// A command is a normal keyed command, not an administrative one.
pub open spec fn is_normal(c: CommandView) -> bool {
    match c {
        CommandView::Noop => true,
        CommandView::Put { .. } => true,
        CommandView::Delete { .. } => true,
        CommandView::Split { .. } => false,
        CommandView::AddPeer { .. } => false,
        CommandView::RemovePeer { .. } => false,
    }
}

/// The log-matching step: an accepted replicated append, which cuts the
/// log just after the matched prefix (`c` entries of the message already
/// present) and splices in the remaining entries, never rewrites anything
/// at or below the matched prefix, and from the splice point on the log
/// holds exactly the leader's entries. Position `p` of a log holds raft
/// index `first + p`; an accepted append attaches after raft index `prev`
/// with entries starting at `prev + 1`.
pub proof fn lemma_log_matching_step(
    old_log: Seq<EntryView>,
    new_log: Seq<EntryView>,
    ents: Seq<EntryView>,
    first: int,
    prev: int,
    c: int,
)
    requires
        first <= prev + 1,
        0 <= c <= ents.len(),
        0 <= prev + 1 + c - first <= old_log.len(),
        new_log == old_log.take(prev + 1 + c - first) + ents.skip(c),
    ensures
        forall|i: int| 0 <= i < prev + 1 + c - first ==> #[trigger] new_log[i] == old_log[i],
        forall|k: int| c <= k < ents.len() ==> new_log[prev + 1 + k - first] == #[trigger] ents[k],
{
    assert forall|k: int| c <= k < ents.len() implies new_log[prev + 1 + k - first]
        == #[trigger] ents[k] by {
        assert(new_log[prev + 1 + k - first] == ents.skip(c)[k - c]);
    }
}

/// Copies a command.
pub fn clone_cmd(c: &Command) -> (r: Command)
    ensures
        r@ == c@,
{
    match c {
        Command::Noop => Command::Noop,
        Command::Put { key, value } => (Command::Put {
            key: clone_bytes(key),
            value: clone_bytes(value),
        }),
        Command::Delete { key } => (Command::Delete { key: clone_bytes(key) }),
        Command::Split { split_key, new_region_id, new_peer_ids } => {
            let mut ids: Vec<u64> = Vec::new();
            let mut i: usize = 0;
            while i < new_peer_ids.len()
                invariant
                    i <= new_peer_ids.len(),
                    ids@ == new_peer_ids@.take(i as int),
                decreases new_peer_ids.len() - i,
            {
                ids.push(new_peer_ids[i]);
                proof {
                    assert(ids@ =~= new_peer_ids@.take(i + 1));
                }
                i = i + 1;
            }
            proof {
                assert(new_peer_ids@.take(new_peer_ids@.len() as int) =~= new_peer_ids@);
            }
            Command::Split {
                split_key: clone_bytes(split_key),
                new_region_id: *new_region_id,
                new_peer_ids: ids,
            }
        },
        Command::AddPeer { peer } => (Command::AddPeer { peer: *peer }),
        Command::RemovePeer { peer_id } => (Command::RemovePeer { peer_id: *peer_id }),
    }
}

/// Copies a log entry.
pub fn clone_entry(e: &Entry) -> (r: Entry)
    ensures
        r@ == e@,
{
    Entry { term: e.term, index: e.index, cmd: clone_cmd(&e.cmd) }
}

/// Copies the entries at positions `from..to`.
pub fn clone_entries_range(es: &Vec<Entry>, from: usize, to: usize) -> (r: Vec<Entry>)
    requires
        from <= to <= es@.len(),
    ensures
        log_view(r@) == log_view(es@).subrange(from as int, to as int),
{
    let mut out: Vec<Entry> = Vec::new();
    let mut i: usize = from;
    proof {
        assert(log_view(out@) =~= log_view(es@).subrange(from as int, from as int));
    }
    while i < to
        invariant
            from <= i <= to <= es@.len(),
            log_view(out@) == log_view(es@).subrange(from as int, i as int),
        decreases to - i,
    {
        let ghost pre = out@;
        let e = clone_entry(&es[i]);
        proof {
            assert(e@ == es@[i as int]@);
        }
        out.push(e);
        proof {
            assert(out@ == pre.push(e));
            assert(log_view(pre) == log_view(es@).subrange(from as int, i as int));
            assert(log_view(pre).len() == pre.len());
            assert(pre.len() == i - from);
            assert forall|j: int| 0 <= j < out@.len() implies #[trigger] log_view(out@)[j]
                == log_view(es@).subrange(from as int, i + 1)[j] by {
                if j < pre.len() {
                    assert(out@[j] == pre[j]);
                    assert(log_view(pre)[j] == log_view(es@).subrange(from as int, i as int)[j]);
                } else {
                    assert(out@[j] == e);
                }
            }
            assert(log_view(out@) =~= log_view(es@).subrange(from as int, i + 1));
        }
        i = i + 1;
    }
    out
}

/// Copies a suffix of a vector of entries, starting at position `from`.
pub fn clone_entries_from(es: &Vec<Entry>, from: usize) -> (r: Vec<Entry>)
    requires
        from <= es@.len(),
    ensures
        log_view(r@) == log_view(es@).skip(from as int),
{
    let mut out: Vec<Entry> = Vec::new();
    let mut i: usize = from;
    while i < es.len()
        invariant
            from <= i <= es.len(),
            log_view(out@) == log_view(es@).subrange(from as int, i as int),
        decreases es.len() - i,
    {
        let ghost pre = out@;
        let e = clone_entry(&es[i]);
        proof {
            assert(e@ == es@[i as int]@);
        }
        out.push(e);
        proof {
            assert(out@ == pre.push(e));
            assert(log_view(pre) == log_view(es@).subrange(from as int, i as int));
            assert(log_view(pre).len() == pre.len());
            assert(pre.len() == i - from);
            assert forall|j: int| 0 <= j < out@.len() implies #[trigger] log_view(out@)[j]
                == log_view(es@).subrange(from as int, i + 1)[j] by {
                if j < pre.len() {
                    assert(out@[j] == pre[j]);
                    assert(log_view(pre)[j] == log_view(es@).subrange(from as int, i as int)[j]);
                } else {
                    assert(out@[j] == e);
                }
            }
            assert(log_view(out@) =~= log_view(es@).subrange(from as int, i + 1));
        }
        i = i + 1;
    }
    proof {
        assert(log_view(es@).subrange(from as int, es@.len() as int) =~= log_view(es@).skip(
            from as int));
    }
    out
}

} // verus!
