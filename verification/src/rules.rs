//! The rules of the dispatcher: what it does after each look at the work
//! queue, when it may hand a task to the pool, and when the walk is over.

use vstd::prelude::*;
use crate::stats::NUM_STATS;

verus! {

/// Pause between two polls of a waiting party, in microseconds.
pub const POLL_INTERVAL_MICROS: u64 = 500;

/// What the dispatcher does next.
#[derive(Debug, PartialEq, Eq)]
pub enum Verdict<T> {
    /// Hand the item to a new scan task.
    Spawn(T),
    /// Nothing was queued: count the live producers.
    Count,
    /// Only the dispatcher can still produce: look at the queue once more.
    Recheck,
    /// Scan tasks are running and may yet queue work: pause, then start over.
    Backoff,
    /// No work is left and none can come: the walk is over.
    Finish,
}

/// After the first look at the queue.
pub open spec fn dequeue_verdict<T>(got: Option<T>) -> Verdict<T> {
    match got {
        Some(item) => Verdict::Spawn(item),
        None => Verdict::Count,
    }
}

/// After counting the live producers, the dispatcher's own handle among them.
pub open spec fn count_verdict<T>(producers: nat) -> Verdict<T> {
    if producers == 1 {
        Verdict::Recheck
    } else {
        Verdict::Backoff
    }
}

/// After the second look at the queue. A scan task may have queued an item
/// and ended between the first look and the count; this look finds the item.
pub open spec fn recheck_verdict<T>(got: Option<T>) -> Verdict<T> {
    match got {
        Some(item) => Verdict::Spawn(item),
        None => Verdict::Finish,
    }
}

/// One whole turn of the dispatcher, from what it sees: the first look at
/// the queue, the count of live producers if that look found nothing, and
/// the second look if the dispatcher counted itself alone.
pub open spec fn turn_verdict<T>(first: Option<T>, producers: nat, second: Option<T>) -> Verdict<
    T,
> {
    match dequeue_verdict(first) {
        Verdict::Spawn(item) => Verdict::Spawn(item),
        _ => match count_verdict::<T>(producers) {
            Verdict::Recheck => recheck_verdict(second),
            _ => Verdict::Backoff,
        },
    }
}

/// Whether the pool takes one more task: only while fewer than `bound` are active.
pub open spec fn admits(active: nat, bound: nat) -> bool {
    active < bound
}

/// The shard after `shard`, round the pool.
pub open spec fn shard_after(shard: nat) -> nat {
    (shard + 1) % (NUM_STATS as nat)
}

/// After the first look at the queue: an item is handed on, an empty queue
/// makes the dispatcher count the producers.
pub fn after_dequeue<T>(got: Option<T>) -> (verdict: Verdict<T>)
    ensures
        verdict == dequeue_verdict(got),
{
    match got {
        Some(item) => Verdict::Spawn(item),
        None => Verdict::Count,
    }
}

/// After counting the live producers: with the dispatcher alone the queue is
/// looked at once more, else the dispatcher pauses.
pub fn after_count<T>(producers: usize) -> (verdict: Verdict<T>)
    ensures
        verdict == count_verdict::<T>(producers as nat),
{
    if producers == 1 {
        Verdict::Recheck
    } else {
        Verdict::Backoff
    }
}

/// After the second look at the queue: an item is handed on, an empty queue
/// ends the walk.
pub fn after_recheck<T>(got: Option<T>) -> (verdict: Verdict<T>)
    ensures
        verdict == recheck_verdict(got),
{
    match got {
        Some(item) => Verdict::Spawn(item),
        None => Verdict::Finish,
    }
}

/// Whether the pool takes one more task.
pub fn may_admit(active: usize, bound: usize) -> (yes: bool)
    ensures
        yes == admits(active as nat, bound as nat),
{
    active < bound
}

/// The shard that the next task writes to, after one wrote to `shard`.
pub fn next_shard(shard: usize) -> (next: usize)
    ensures
        next == shard_after(shard as nat),
        next < NUM_STATS,
{
    let here: usize = shard % NUM_STATS;
    let next: usize = (here + 1) % NUM_STATS;
    assert((shard as nat + 1) % 12 == ((shard as nat % 12) + 1) % 12) by (nonlinear_arith);
    next
}

} // verus!
