//! The traversal engine: a depth-first walk of a directory tree, driven as a
//! state machine.
//!
//! The caller reads directories and stats children; the engine owns every
//! decision: which directory to expand next, whether the optional deadline
//! has passed, and what to do with each child. A subdirectory is deferred
//! onto the pending stack — never returned into — so every sibling at a
//! level is still processed.

use vstd::prelude::*;

verus! {

/// What a directory child is: dispatch happens on this alone.
pub enum FileKind {
    Directory,
    Regular,
    Symlink,
    Other,
}

/// What the engine decides for one child.
pub enum ChildAction {
    /// The deadline has passed: stop scheduling work; what was already
    /// visited stands.
    Timeout,
    /// A subdirectory: deferred onto the pending stack.
    Recurse,
    /// A regular file: the caller invokes its visitor exactly once.
    Visit,
    /// A symbolic link or anything else: skipped silently.
    Skip,
}

/// The clock `now` is strictly past the cutoff, if one is set.
pub open spec fn past_deadline(deadline: Option<u64>, now: u64) -> bool {
    deadline is Some && now > deadline->0
}

/// Deadline enforcement: a walk given a zero-second duration at `start` has
/// `Some(start)` as its cutoff, so any poll after the start is past the
/// deadline — a non-empty tree times out rather than completing.
pub proof fn lemma_zero_duration_times_out(start: u64, now: u64)
    requires
        now > start,
    ensures
        past_deadline(Some(start), now),
{
}

/// The state of one walk: the directories not yet expanded, in depth-first
/// order, and the optional absolute cutoff (unix seconds).
pub struct Traversal {
    pending: Vec<String>,
    deadline: Option<u64>,
}

/// The mathematical image of a `Traversal`.
pub ghost struct TraversalView {
    pub pending: Seq<Seq<char>>,
    pub deadline: Option<u64>,
}

impl View for Traversal {
    type V = TraversalView;

    closed spec fn view(&self) -> TraversalView {
        TraversalView { pending: self.pending.deep_view(), deadline: self.deadline }
    }
}

impl Traversal {
    /// Starts a walk at `root`. A duration becomes an absolute cutoff,
    /// measured from `now`; no duration means no deadline.
    pub fn new(root: String, now: u64, duration: Option<u64>) -> (t: Traversal)
        requires
            duration matches Some(d) ==> now + d <= u64::MAX,
        ensures
            t@.pending == seq![root@],
            duration is None ==> t@.deadline is None,
            duration matches Some(d) ==> t@.deadline == Some((now + d) as u64),
    {
        let deadline = match duration {
            Some(d) => Some(now + d),
            None => None,
        };
        let t = Traversal { pending: vec![root], deadline };
        proof {
            assert(t@.pending =~= seq![root@]);
        }
        t
    }

    /// The next directory to expand; `None` when the walk is complete.
    pub fn next_dir(&mut self) -> (r: Option<String>)
        ensures
            final(self)@.deadline == old(self)@.deadline,
            old(self)@.pending.len() == 0 ==> r is None && final(self)@.pending == old(self)@.pending,
            old(self)@.pending.len() > 0 ==> (r matches Some(d) && d@ == old(self)@.pending.last() && final(self)@.pending == old(self)@.pending.drop_last()),
    {
        let r = self.pending.pop();
        proof {
            if old(self)@.pending.len() > 0 {
                assert(self@.pending =~= old(self)@.pending.drop_last());
            } else {
                assert(self@.pending =~= old(self)@.pending);
            }
        }
        r
    }

    /// Decides one child of the directory being expanded. The clock is
    /// polled first: past the deadline nothing more is scheduled. Otherwise
    /// a subdirectory is pushed for later expansion — the caller goes on to
    /// the remaining siblings — a regular file is visited, and anything
    /// else is skipped.
    pub fn process_child(&mut self, path: &String, kind: FileKind, now: u64) -> (a: ChildAction)
        ensures
            final(self)@.deadline == old(self)@.deadline,
            past_deadline(old(self)@.deadline, now) ==> a == ChildAction::Timeout && final(self)@.pending == old(self)@.pending,
            !past_deadline(old(self)@.deadline, now) ==> match kind {
                FileKind::Directory => a == ChildAction::Recurse && final(self)@.pending == old(self)@.pending.push(path@),
                FileKind::Regular => a == ChildAction::Visit && final(self)@.pending == old(self)@.pending,
                FileKind::Symlink | FileKind::Other => a == ChildAction::Skip && final(self)@.pending == old(self)@.pending,
            },
    {
        let timed_out = match self.deadline {
            Some(t) => now > t,
            None => false,
        };
        if timed_out {
            return ChildAction::Timeout;
        }
        match kind {
            FileKind::Directory => {
                self.pending.push(path.clone());
                proof {
                    assert(self@.pending =~= old(self)@.pending.push(path@));
                }
                ChildAction::Recurse
            },
            FileKind::Regular => ChildAction::Visit,
            FileKind::Symlink | FileKind::Other => ChildAction::Skip,
        }
    }
}

} // verus!
