//! The decisions of the tree walk: what to do with each visited entry, and
//! whether a child entry gets a task of its own or runs on the current one.
use vstd::prelude::*;

verus! {

/// What a visited path turned out to be.
#[derive(Debug, Clone, Copy, PartialEq, Eq, Structural)]
pub enum EntryKind {
    File,
    Directory,
    /// Missing, inaccessible, or neither a regular file nor a directory.
    Other,
}

/// What the walk does with a visited entry.
#[derive(Debug, Clone, Copy, PartialEq, Eq, Structural)]
pub enum Step {
    /// Read the file and record it if a line matches.
    Scan,
    /// List the directory and visit each of its entries one level deeper.
    Descend,
    /// Leave the entry alone.
    Skip,
}

/// Files are always scanned; a directory is entered when it is the root or
/// the search is recursive; anything else is skipped.
pub open spec fn step_for(kind: EntryKind, recursive: bool, depth: nat) -> Step {
    match kind {
        EntryKind::File => Step::Scan,
        EntryKind::Directory => if recursive || depth == 0 {
            Step::Descend
        } else {
            Step::Skip
        },
        EntryKind::Other => Step::Skip,
    }
}

/// The step for an entry of the given kind, `depth` levels below the root.
pub fn classify(kind: EntryKind, recursive: bool, depth: usize) -> (r: Step)
    ensures
        r == step_for(kind, recursive, depth as nat),
{
    match kind {
        EntryKind::File => Step::Scan,
        EntryKind::Directory => {
            if recursive || depth == 0 {
                Step::Descend
            } else {
                Step::Skip
            }
        },
        EntryKind::Other => Step::Skip,
    }
}

/// An entry is reached when every directory on the way to it, the root first,
/// was entered: `ancestors[d]` is the kind of the one at depth `d`.
pub open spec fn reached_through(ancestors: Seq<EntryKind>, recursive: bool) -> bool {
    forall|d: int| 0 <= d < ancestors.len() ==> step_for(#[trigger] ancestors[d], recursive, d as nat)
        == Step::Descend
}

/// Without recursion only the root is entered, so nothing deeper than the
/// root's own entries is ever reached: an entry with two or more directories
/// above it (one at depth two or more) is never visited.
pub proof fn lemma_flat_search_depth(ancestors: Seq<EntryKind>)
    requires
        reached_through(ancestors, false),
    ensures
        ancestors.len() <= 1,
{
    if ancestors.len() > 1 {
        assert(step_for(ancestors[1], false, 1) == Step::Descend);
    }
}

/// The count of traversal tasks in flight, against the most that may run at once.
pub struct WorkerBudget {
    in_flight: usize,
    max_workers: usize,
}

impl WorkerBudget {
    /// Tasks in flight, the first one included.
    pub closed spec fn active(&self) -> nat {
        self.in_flight as nat
    }

    /// The most tasks that may be in flight at once.
    pub closed spec fn limit(&self) -> nat {
        self.max_workers as nat
    }

    /// The first task is always counted, and the count never passes the limit.
    pub open spec fn wf(&self) -> bool {
        1 <= self.active() <= self.limit()
    }

    /// A budget with only the first task in flight.
    pub fn new(max_workers: usize) -> (r: WorkerBudget)
        requires
            max_workers >= 1,
        ensures
            r.wf(),
            r.active() == 1,
            r.limit() == max_workers,
    {
        WorkerBudget { in_flight: 1, max_workers }
    }

    /// Checks for room and takes it in one step: when fewer tasks than the
    /// limit are in flight, counts one more and returns true (the child gets a
    /// task of its own); otherwise changes nothing and returns false (the child
    /// runs inline on the current task).
    pub fn try_admit(&mut self) -> (r: bool)
        requires
            old(self).wf(),
        ensures
            final(self).wf(),
            final(self).limit() == old(self).limit(),
            r == (old(self).active() < old(self).limit()),
            r ==> final(self).active() == old(self).active() + 1,
            !r ==> final(self).active() == old(self).active(),
    {
        if self.in_flight < self.max_workers {
            self.in_flight = self.in_flight + 1;
            true
        } else {
            false
        }
    }

    /// A task that was admitted has finished.
    pub fn finish(&mut self)
        requires
            old(self).wf(),
            old(self).active() > 1,
        ensures
            final(self).wf(),
            final(self).limit() == old(self).limit(),
            final(self).active() == old(self).active() - 1,
    {
        self.in_flight = self.in_flight - 1;
    }

    /// Every admitted task has finished: only the first one is counted.
    pub fn is_drained(&self) -> (r: bool)
        ensures
            r == (self.active() == 1),
    {
        self.in_flight == 1
    }

    pub fn in_flight(&self) -> (r: usize)
        ensures
            r == self.active(),
    {
        self.in_flight
    }

    pub fn max_workers(&self) -> (r: usize)
        ensures
            r == self.limit(),
    {
        self.max_workers
    }
}

/// However admissions and completions interleave, a well-formed budget never
/// counts more tasks in flight than its limit, nor fewer than the first one.
pub proof fn lemma_in_flight_bounded(b: WorkerBudget)
    requires
        b.wf(),
    ensures
        1 <= b.active() <= b.limit(),
{
}

} // verus!
