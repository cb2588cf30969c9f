//! The limiter of the task pool: it counts the scan tasks that are alive and
//! says whether one more may start.

use vstd::prelude::*;
use tokio_util::task::task_tracker::TaskTrackerWaitFuture;
use tokio_util::task::TaskTracker;
use crate::rules::{admits, may_admit, POLL_INTERVAL_MICROS};

verus! {

/// `tokio_util::task::TaskTracker`: a count of the tasks alive and a mark
/// for closed, shared by all clones. Nothing is known of what is inside.
#[verifier::external_type_specification]
#[verifier::external_body]
pub struct ExTaskTracker(tokio_util::task::TaskTracker);

/// `tokio_util::task::task_tracker::TaskTrackerWaitFuture`: the future that
/// `TaskTracker::wait` gives. Nothing is known of what is inside.
#[verifier::external_type_specification]
#[verifier::external_body]
pub struct ExTaskTrackerWaitFuture<'a>(
    tokio_util::task::task_tracker::TaskTrackerWaitFuture<'a>,
);

/// `TaskTracker::new` creates a tracker that tracks no task and is open.
/// Nothing is claimed of the result: what a tracker holds changes under
/// every holder of a clone.
pub assume_specification[ tokio_util::task::TaskTracker::new ]() -> TaskTracker;

/// `TaskTracker::len` gives the number of tasks tracked at the moment of the
/// call. Nothing is claimed of the result.
pub assume_specification[ tokio_util::task::TaskTracker::len ](tracker: &TaskTracker) -> usize;

/// `TaskTracker::close` closes the tracker and says whether this call did
/// it. Nothing is claimed of the result.
pub assume_specification[ tokio_util::task::TaskTracker::close ](tracker: &TaskTracker) -> bool;

/// `TaskTracker::is_closed` says whether the tracker is closed at the moment
/// of the call. Nothing is claimed of the result.
pub assume_specification[ tokio_util::task::TaskTracker::is_closed ](tracker: &TaskTracker) -> bool;

/// `TaskTracker::wait` gives a future that completes once the tracker is
/// closed and empty. Nothing is claimed of the result.
pub assume_specification<'a>[ tokio_util::task::TaskTracker::wait ](tracker: &'a TaskTracker) -> TaskTrackerWaitFuture<
    'a,
>;

/// The most scan tasks that are alive at once, where no other limit is set.
pub const DEFAULT_LIMIT: usize = 500;

/// `Clone::clone` of a `TaskTracker`: one more handle on the same tracker.
/// Nothing is claimed of the result.
pub assume_specification[ <tokio_util::task::TaskTracker as Clone>::clone ](tracker: &TaskTracker) -> TaskTracker;

/// The answer of the limiter to a task that wants to start.
#[derive(Copy, Clone, Debug, PartialEq, Eq, Structural)]
pub enum Admission {
    /// The task may start now.
    Granted,
    /// The pool is full: ask again after so many microseconds.
    Wait { micros: u64 },
    /// The limiter is closed: the task may not start at all.
    Rejected,
}

/// The answer to a task that wants to start, from what the limiter saw:
/// whether it is closed, and how many tasks are alive.
pub open spec fn admission(closed: bool, active: nat, lim: nat) -> Admission {
    if closed {
        Admission::Rejected
    } else if admits(active, lim) {
        Admission::Granted
    } else {
        Admission::Wait { micros: POLL_INTERVAL_MICROS }
    }
}

/// The answer to a task that wants to start: none may start once the
/// limiter is closed; else one may while fewer than `lim` are alive; else it
/// is to ask again after the polling interval.
pub fn decide_admission(closed: bool, active: usize, lim: usize) -> (answer: Admission)
    ensures
        answer == admission(closed, active as nat, lim as nat),
{
    if closed {
        Admission::Rejected
    } else if may_admit(active, lim) {
        Admission::Granted
    } else {
        Admission::Wait { micros: POLL_INTERVAL_MICROS }
    }
}

/// A limiter of spawns over a task tracker: fewer than `lim` tasks are alive
/// whenever one more is let in. A clone limits the same pool.
#[derive(Clone)]
pub struct TaskSpawner {
    /// The most tasks that can be alive at once.
    lim: usize,
    /// The tracker that counts the tasks alive.
    track: TaskTracker,
}

impl TaskSpawner {
    /// The most tasks that can be alive at once.
    pub closed spec fn limit(&self) -> usize {
        self.lim
    }

    /// The tracker that counts the tasks of the pool.
    pub closed spec fn pool(&self) -> TaskTracker {
        self.track
    }

    /// A limiter with the limit `lim`, open, with no task alive.
    pub fn new(lim: usize) -> (spawner: TaskSpawner)
        ensures
            spawner.limit() == lim,
    {
        TaskSpawner { lim, track: TaskTracker::new() }
    }

    /// The most tasks that can be alive at once.
    pub fn lim(&self) -> (lim: usize)
        ensures
            lim == self.limit(),
    {
        self.lim
    }

    /// Number of tasks alive at the moment of the call.
    pub fn active(&self) -> usize {
        self.track.len()
    }

    /// Answers a task that wants to start. A task that is granted must be
    /// started on the tracker before the limiter is asked again.
    pub fn poll(&self) -> (answer: Admission)
        ensures
            exists|closed: bool, active: nat|
                answer == admission(closed, active, self.limit() as nat),
    {
        let closed = self.track.is_closed();
        let active = self.track.len();
        let answer = decide_admission(closed, active, self.lim);
        assert(answer == admission(closed, active as nat, self.limit() as nat));
        answer
    }

    /// Closes the limiter: no task may start after this point. Says whether
    /// this call closed it.
    pub fn close(&self) -> bool {
        self.track.close()
    }

    /// Whether the limiter is closed at the moment of the call.
    pub fn is_closed(&self) -> bool {
        self.track.is_closed()
    }

    /// A future that completes once the limiter is closed and every task
    /// has ended.
    pub fn wait(&self) -> TaskTrackerWaitFuture<'_> {
        self.track.wait()
    }

    /// The tracker on which admitted tasks are started: the one by which
    /// this limiter counts.
    pub fn tracker(&self) -> (tracker: &TaskTracker)
        ensures
            *tracker == self.pool(),
    {
        &self.track
    }
}

} // verus!
