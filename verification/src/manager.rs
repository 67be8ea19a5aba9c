//! Serving-side ownership of the current graph snapshot.
//!
//! The manager holds the one current snapshot reference: queries read it,
//! and a reload swaps in a complete new snapshot wholesale — never a
//! partial update. Before the first successful load queries get a definite
//! not-ready outcome. The watcher state machine debounces artifact change
//! notifications: a signal within the quiet window of the last accepted one
//! is suppressed, collapsing write-then-rename bursts into one reload, and
//! an accepted signal is acted on only after a settle delay, giving a
//! multi-step writer time to finish. The host wraps the manager in its
//! reader-writer lock; the exclusive section is only the constant-time swap.

use vstd::prelude::*;

use crate::bfs::bfs_bidirectional;
use crate::bfs::path_ok;
use crate::link_data::LinkData;

verus! {

/// Seconds after an accepted change signal during which further signals
/// are suppressed.
pub const QUIET_WINDOW_SECS: u64 = 300;

/// Seconds to wait after accepting a change signal before reloading, so a
/// multi-step writer can finish.
pub const SETTLE_DELAY_SECS: u64 = 60;

/// Debounces artifact change notifications against a caller-supplied
/// monotone clock.
pub struct FileWatcher {
    /// When the last accepted signal arrived, if any.
    pub last_accepted: Option<u64>,
}

impl FileWatcher {
    /// A watcher that has accepted no signal yet.
    pub fn new() -> (r: FileWatcher)
        ensures
            r.last_accepted is None,
    {
        FileWatcher { last_accepted: None }
    }

    /// Decides one notification: a modification signal is accepted exactly
    /// when no signal was accepted within the quiet window before it; any
    /// other notification is ignored. Accepting records the signal's time.
    pub fn on_event(&mut self, is_modify: bool, now_secs: u64) -> (accept: bool)
        requires
            old(self).last_accepted matches Some(t) ==> t <= now_secs,
        ensures
            accept == (is_modify && (old(self).last_accepted is None || now_secs - (old(
                self,
            ).last_accepted->Some_0) >= QUIET_WINDOW_SECS)),
            final(self).last_accepted == (if accept {
                Some(now_secs)
            } else {
                old(self).last_accepted
            }),
    {
        if !is_modify {
            return false;
        }
        let accept = match self.last_accepted {
            None => true,
            Some(t) => now_secs - t >= QUIET_WINDOW_SECS,
        };
        if accept {
            self.last_accepted = Some(now_secs);
        }
        accept
    }
}

/// What one query yields.
#[derive(Debug)]
pub enum QueryOutcome {
    /// No snapshot has been loaded yet.
    NotReady,
    /// The graph holds no directed path from start to target.
    NotFound,
    /// The shortest path, start and target included.
    Path(Vec<u32>),
}

/// Owns the current snapshot reference and serves queries against it.
pub struct SnapshotManager {
    current: Option<LinkData>,
}

impl SnapshotManager {
    /// The current snapshot, if one was installed.
    pub closed spec fn snapshot(self) -> Option<LinkData> {
        self.current
    }

    /// Any installed snapshot is well-formed.
    pub open spec fn wf(self) -> bool {
        self.snapshot() matches Some(d) ==> d.wf()
    }

    /// A manager with no snapshot: queries are answered not-ready.
    pub fn new() -> (r: SnapshotManager)
        ensures
            r.snapshot() is None,
            r.wf(),
    {
        SnapshotManager { current: None }
    }

    /// Whether a snapshot has been installed.
    pub fn is_ready(&self) -> (r: bool)
        ensures
            r == (self.snapshot() is Some),
    {
        match &self.current {
            Some(_) => true,
            None => false,
        }
    }

    /// Replaces the current snapshot wholesale with a freshly built one.
    pub fn install(&mut self, data: LinkData)
        requires
            data.wf(),
        ensures
            final(self).snapshot() == Some(data),
            final(self).wf(),
    {
        self.current = Some(data);
    }

    /// Answers one shortest-path query against the current snapshot: a
    /// definite not-ready outcome before the first load, then a path from
    /// start to target along forward links, or not-found.
    pub fn solve(&self, start: u32, target: u32) -> (r: QueryOutcome)
        requires
            self.wf(),
        ensures
            (r is NotReady) <==> (self.snapshot() is None),
            (r is NotFound) <==> (self.snapshot() matches Some(d) && !crate::bfs::reachable(
                d.links_forward@,
                start,
                target,
            )),
            r matches QueryOutcome::Path(p) ==> {
                &&& self.snapshot() matches Some(d) && path_ok(d.links_forward@, p@) && (forall|
                    k: nat,
                |
                    k < p@.len() - 1 ==> !crate::bfs::reaches(d.links_forward@, start, target, k))
                &&& p@.len() >= 1
                &&& p@[0] == start
                &&& p@[p@.len() - 1] == target
            },
            start == target && self.snapshot() is Some ==> (r matches QueryOutcome::Path(p) && p@ == seq![
                start,
            ]),
    {
        match &self.current {
            None => QueryOutcome::NotReady,
            Some(d) => match bfs_bidirectional(d, start, target) {
                Some(p) => QueryOutcome::Path(p),
                None => QueryOutcome::NotFound,
            },
        }
    }
}

} // verus!
