//! The stateful directory enumerator handed out to guests.
//!
//! A "start enumeration" call captures an ordered snapshot of virtual paths
//! and moves it into a [`DirectoryEnumerator`]. The guest then pulls entries
//! one per call: while entries remain, each pull hands out the next one in
//! snapshot order; once the snapshot is exhausted, every pull yields the
//! terminal sentinel `None`, idempotently. No other operation — no reset, no
//! peek — is supported. Because the snapshot is owned and fixed at creation
//! time, entries added to the backing directory afterwards are never
//! observed.

use vstd::prelude::*;
use crate::path::PathModel;
use crate::path::VirtualPath;
use crate::storage::NodeModel;

verus! {

/// Model of an enumerator: the snapshot and how many entries were handed out.
pub struct EnumeratorModel {
    pub entries: Seq<PathModel>,
    pub cursor: nat,
}

/// A pull-based enumerator over a snapshot of virtual paths.
pub struct DirectoryEnumerator {
    entries: Vec<VirtualPath>,
    cursor: usize,
}

impl View for DirectoryEnumerator {
    type V = EnumeratorModel;

    closed spec fn view(&self) -> EnumeratorModel {
        EnumeratorModel { entries: self.entries.deep_view(), cursor: self.cursor as nat }
    }
}

/// Whether a pull at this cursor hands out an entry (rather than the
/// sentinel).
pub open spec fn pull_yields(n_entries: nat, cursor: nat) -> bool {
    cursor < n_entries
}

/// The cursor after one pull.
pub open spec fn pull_cursor(n_entries: nat, cursor: nat) -> nat {
    if cursor < n_entries {
        cursor + 1
    } else {
        cursor
    }
}

/// How many of `steps` consecutive pulls starting at `cursor` hand out an
/// entry.
pub open spec fn pulls_yielded(n_entries: nat, cursor: nat, steps: nat) -> nat
    decreases steps,
{
    if steps == 0 {
        0
    } else {
        (if pull_yields(n_entries, cursor) {
            1 as nat
        } else {
            0 as nat
        }) + pulls_yielded(n_entries, pull_cursor(n_entries, cursor), (steps - 1) as nat)
    }
}

impl DirectoryEnumerator {
    /// The cursor never runs past the snapshot.
    pub open spec fn wf(&self) -> bool {
        self@.cursor <= self@.entries.len()
    }

    /// How many entries remain to be handed out.
    pub open spec fn remaining(&self) -> nat {
        (self@.entries.len() - self@.cursor) as nat
    }

    /// Move a snapshot into a fresh enumerator.
    pub fn new(entries: Vec<VirtualPath>) -> (e: DirectoryEnumerator)
        ensures
            e.wf(),
            e@.entries == entries.deep_view(),
            e@.cursor == 0,
    {
        DirectoryEnumerator { entries, cursor: 0 }
    }

    /// Pull the next entry: while entries remain, the next one in snapshot
    /// order; once exhausted, the terminal sentinel `None`, on this and every
    /// later call.
    pub fn next_object(&mut self) -> (r: Option<VirtualPath>)
        requires
            old(self).wf(),
        ensures
            final(self).wf(),
            final(self)@.entries == old(self)@.entries,
            final(self)@.cursor == pull_cursor(old(self)@.entries.len(), old(self)@.cursor),
            match r {
                Some(p) => pull_yields(old(self)@.entries.len(), old(self)@.cursor) && p@
                    == old(self)@.entries[old(self)@.cursor as int],
                None => !pull_yields(old(self)@.entries.len(), old(self)@.cursor),
            },
    {
        if self.cursor < self.entries.len() {
            let item = self.entries[self.cursor].duplicate();
            self.cursor = self.cursor + 1;
            Some(item)
        } else {
            None
        }
    }
}

/// Enumerator exhaustion: over a snapshot of `n_entries` entries, pulls hand
/// out entries one by one until the snapshot is spent and the sentinel
/// afterwards — so over any number of pulls from cursor position `cursor`,
/// exactly `min(steps, n_entries - cursor)` of them hand out an entry; from a
/// fresh enumerator, exactly the first `n_entries` do.
pub proof fn lemma_enumerator_exhaustion(n_entries: nat, cursor: nat, steps: nat)
    requires
        cursor <= n_entries,
    ensures
        pulls_yielded(n_entries, cursor, steps) == if cursor + steps <= n_entries {
            steps
        } else {
            (n_entries - cursor) as nat
        },
    decreases steps,
{
    if steps > 0 {
        lemma_enumerator_exhaustion(n_entries, pull_cursor(n_entries, cursor), (steps - 1) as nat);
    }
}

/// Snapshot isolation: an enumerator's snapshot lists only locations that
/// existed under `base` when the snapshot was taken, so a location absent
/// from the store at that moment — one created afterwards, say — is never
/// handed out by any later pull, whatever happens to the store.
pub proof fn lemma_snapshot_isolation(
    nodes_at_creation: Map<Seq<Seq<char>>, NodeModel>,
    base: Seq<Seq<char>>,
    snapshot: Seq<PathModel>,
    added: Seq<Seq<char>>,
    j: int,
)
    requires
        forall|t: int|
            0 <= t < snapshot.len() ==> nodes_at_creation.dom().contains(
                base + (#[trigger] snapshot[t]).segments,
            ),
        !nodes_at_creation.dom().contains(base + added),
        0 <= j < snapshot.len(),
    ensures
        snapshot[j].segments != added,
{
}

} // verus!
