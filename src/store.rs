//! The snapshot store and the refresh scheduler's decisions.

use vstd::prelude::*;
use crate::record::{Process, unique_pids};

verus! {

/// An immutable capture of the process table.
#[derive(Clone, Debug)]
pub struct Snapshot {
    pub records: Vec<Process>,
    /// Capture time, in seconds since the Unix epoch.
    pub captured_at: u64,
    /// Position of this capture among the published ones; 0 before the first.
    pub generation: u64,
}

/// What one attempt to list the processes gave.
#[derive(Clone, Debug)]
pub enum RefreshResult {
    Captured { records: Vec<Process>, captured_at: u64 },
    /// The system could not list the processes.
    EnumerationError,
}

/// Holds the latest published snapshot.
pub struct SnapshotStore {
    pub latest: Snapshot,
}

impl SnapshotStore {
    /// A store holding the empty snapshot of generation 0.
    pub fn new() -> (r: SnapshotStore)
        ensures
            r.latest.records@.len() == 0,
            r.latest.generation == 0,
            r.latest.captured_at == 0,
    {
        SnapshotStore { latest: Snapshot { records: Vec::new(), captured_at: 0, generation: 0 } }
    }

    /// Publishes the result of a refresh: a capture replaces the snapshot whole under
    /// the next generation; a failed listing leaves the previous snapshot in place.
    /// Returns whether a new snapshot was published.
    pub fn publish(&mut self, result: RefreshResult) -> (published: bool)
        requires
            old(self).latest.generation < u64::MAX,
        ensures
            match result {
                RefreshResult::Captured { records, captured_at } => {
                    &&& published
                    &&& final(self).latest.records@ == records@
                    &&& final(self).latest.captured_at == captured_at
                    &&& final(self).latest.generation == old(self).latest.generation + 1
                },
                RefreshResult::EnumerationError => !published && final(self).latest == old(self).latest,
            },
            final(self).latest.generation >= old(self).latest.generation,
    {
        match result {
            RefreshResult::Captured { records, captured_at } => {
                let generation = self.latest.generation + 1;
                self.latest = Snapshot { records, captured_at, generation };
                true
            },
            RefreshResult::EnumerationError => false,
        }
    }
}

/// Whether no two records share a pid.
pub fn pids_unique(records: &[Process]) -> (r: bool)
    ensures
        r == unique_pids(records@),
{
    let n = records.len();
    let mut i: usize = 0;
    while i < n
        invariant
            n == records@.len(),
            i <= n,
            forall|a: int, b: int| 0 <= a < i && 0 <= b < n && a != b ==> #[trigger] records@[a].pid != #[trigger] records@[b].pid,
        decreases n - i,
    {
        let mut j: usize = 0;
        while j < n
            invariant
                n == records@.len(),
                i < n,
                j <= n,
                forall|b: int| 0 <= b < j && b != i ==> records@[i as int].pid != #[trigger] records@[b].pid,
            decreases n - j,
        {
            if j != i && records[i].pid == records[j].pid {
                return false;
            }
            j = j + 1;
        }
        i = i + 1;
    }
    true
}

/// What the scheduler does when it wakes.
#[derive(Clone, Copy, Debug, PartialEq, Eq, Structural)]
pub enum TickAction {
    /// The run flag is down: leave the loop.
    Stop,
    /// Updates are paused: do not ask the system for anything.
    Skip,
    /// Ask the system for a fresh listing and publish it.
    Refresh,
}

/// The scheduler's decision on waking: stop once the run flag is down, and never ask
/// the system for a listing while updates are paused.
pub fn on_tick(running: bool, paused: bool) -> (r: TickAction)
    ensures
        !running ==> r == TickAction::Stop,
        running && paused ==> r == TickAction::Skip,
        running && !paused ==> r == TickAction::Refresh,
{
    if !running {
        TickAction::Stop
    } else if paused {
        TickAction::Skip
    } else {
        TickAction::Refresh
    }
}

} // verus!
