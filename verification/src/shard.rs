//! One shard of the counter pool: three counters that many tasks add to at
//! once, each on a cache line of its own.

use vstd::prelude::*;
use core::ops::Deref;
use core::sync::atomic::AtomicU64;
use core::sync::atomic::Ordering;
use std::sync::Arc;
use crossbeam_utils::CachePadded;
use crate::stats::{accumulate, pool_sum, views, Counts, DisplayStats, NUM_STATS};

verus! {

/// `crossbeam_utils::CachePadded`: a value on a cache line of its own.
/// Nothing is known of what is inside.
#[verifier::external_type_specification]
#[verifier::external_body]
#[verifier::reject_recursive_types(T)]
pub struct ExCachePadded<T>(crossbeam_utils::CachePadded<T>);

/// `CachePadded::new` pads and aligns a value to the length of a cache line.
/// Nothing is claimed of the result.
pub assume_specification<T>[ crossbeam_utils::CachePadded::<T>::new ](t: T) -> CachePadded<T>;

/// `Deref::deref` of a `CachePadded`: the counter inside the padding.
/// Nothing is claimed of the result: a counter that is shared has no value
/// that a contract could name.
#[verifier::external_body]
fn counter(padded: &CachePadded<AtomicU64>) -> &AtomicU64 {
    padded.deref()
}

/// Counters of files, symlinks and directories that any number of tasks may
/// add to at the same time. What they hold is known only once every writer
/// has finished; until then a read is a lower bound at best.
#[derive(Debug)]
pub struct Stats {
    /// file count
    file: CachePadded<AtomicU64>,
    /// symlink count
    sym: CachePadded<AtomicU64>,
    /// directory count
    dir: CachePadded<AtomicU64>,
}

impl Stats {
    /// A shard with every counter at zero.
    pub fn new() -> Stats {
        Stats {
            file: CachePadded::new(AtomicU64::new(0)),
            sym: CachePadded::new(AtomicU64::new(0)),
            dir: CachePadded::new(AtomicU64::new(0)),
        }
    }

    /// Increments the file counter.
    pub fn inc_file(&self) {
        counter(&self.file).fetch_add(1, Ordering::Relaxed);
    }

    /// Increments the symlink counter.
    pub fn inc_sym(&self) {
        counter(&self.sym).fetch_add(1, Ordering::Relaxed);
    }

    /// Increments the directory counter.
    pub fn inc_dir(&self) {
        counter(&self.dir).fetch_add(1, Ordering::Relaxed);
    }

    /// Adds what one scan has counted.
    pub fn add(&self, counts: DisplayStats) {
        counter(&self.file).fetch_add(counts.file, Ordering::Relaxed);
        counter(&self.sym).fetch_add(counts.sym, Ordering::Relaxed);
        counter(&self.dir).fetch_add(counts.dir, Ordering::Relaxed);
    }

    /// Reads the three counters, one after the other.
    pub fn load(&self) -> DisplayStats {
        DisplayStats {
            file: counter(&self.file).load(Ordering::Relaxed),
            sym: counter(&self.sym).load(Ordering::Relaxed),
            dir: counter(&self.dir).load(Ordering::Relaxed),
        }
    }

    /// Adds what the shard holds to `values`; `None` where a counter cannot
    /// hold the sum. To be called once no task writes to the shard any more.
    pub fn accum(&self, values: DisplayStats) -> (sum: Option<DisplayStats>)
        ensures
            exists|held: DisplayStats|
                {
                    &&& sum is Some <==> (#[trigger] values@.plus(held@)).fits()
                    &&& sum is Some ==> sum->Some_0@ == values@.plus(held@)
                },
    {
        let held = self.load();
        let sum = values.checked_plus(held);
        assert(sum is Some <==> values@.plus(held@).fits());
        sum
    }
}

/// `Arc::clone` makes one more pointer to the same allocation: the shard
/// behind the result is the shard behind the argument.
#[verifier::external_body]
fn share(shard: &Arc<Stats>) -> (other: Arc<Stats>)
    ensures
        other == *shard,
{
    Arc::clone(shard)
}

/// The pool of shards: so many that tasks which start one after the other
/// seldom write to the same one.
pub struct StatsPool {
    shards: Vec<Arc<Stats>>,
}

impl StatsPool {
    /// Number of shards in the pool.
    pub closed spec fn size(&self) -> nat {
        self.shards.len() as nat
    }

    /// The shard at position `at` of the pool.
    pub closed spec fn slot(&self, at: int) -> Arc<Stats> {
        self.shards@[at]
    }

    /// The pool has the number of shards that every pool has.
    pub open spec fn wf(&self) -> bool {
        self.size() == NUM_STATS
    }

    /// A pool of shards with every counter at zero.
    pub fn new() -> (pool: StatsPool)
        ensures
            pool.wf(),
    {
        let mut shards: Vec<Arc<Stats>> = Vec::new();
        let mut i: usize = 0;
        while i < NUM_STATS
            invariant
                i <= NUM_STATS,
                shards.len() == i,
            decreases NUM_STATS - i,
        {
            shards.push(Arc::new(Stats::new()));
            i = i + 1;
        }
        StatsPool { shards }
    }

    /// A handle on the shard at `at`, round the pool: one more pointer to
    /// that shard, not a shard of its own.
    pub fn shard(&self, at: usize) -> (handle: Arc<Stats>)
        requires
            self.wf(),
        ensures
            handle == self.slot(at as int % NUM_STATS as int),
    {
        share(&self.shards[at % NUM_STATS])
    }

    /// Sums all shards into one triple; `None` where a counter cannot hold
    /// the sum. To be called once no task writes to the pool any more: the
    /// result is the sum of what the shards held, each when it was read.
    pub fn total(&self) -> (sum: Option<DisplayStats>)
        ensures
            exists|held: Seq<Counts>|
                {
                    &&& held.len() == self.size()
                    &&& sum is Some <==> (#[trigger] pool_sum(held)).fits()
                    &&& sum is Some ==> sum->Some_0@ == pool_sum(held)
                },
    {
        let mut held: Vec<DisplayStats> = Vec::new();
        let mut i: usize = 0;
        while i < self.shards.len()
            invariant
                i <= self.shards.len(),
                held.len() == i,
            decreases self.shards.len() - i,
        {
            held.push(self.shards[i].load());
            i = i + 1;
        }
        let sum = accumulate(&held);
        assert(sum is Some <==> pool_sum(views(held@)).fits());
        sum
    }
}

} // verus!
