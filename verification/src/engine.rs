//! The engine run on a synthetic tree, one event at a time, under any
//! schedule of events that a caller chooses.

use vstd::prelude::*;
use crate::model::{
    advance,
    dispatch,
    drain,
    fair,
    head,
    init,
    inv,
    lemma_fair_progress,
    lemma_init_inv,
    lemma_next_inv,
    lemma_pool_within_total,
    lemma_scan_fits,
    lemma_settled_total,
    lemma_work_left,
    measure,
    next,
    report_step,
    scan_step,
    settled,
    task_ok,
    trace,
    Event,
    Phase,
    State,
    TaskView,
};
use crate::rules::{after_count, after_dequeue, after_recheck, may_admit, next_shard, Verdict};
use crate::scan::{copy_record, scan_directory, ErrorRecord};
use crate::stats::{accumulate, pool_sum, views, Counts, DisplayStats, NUM_STATS};
use crate::tree::Tree;
use crate::walk::{reference_walk, total, Outcome};

verus! {

/// A running scan task.
#[derive(Debug, PartialEq, Eq)]
pub struct Task {
    /// The directory that the task was given.
    pub node: usize,
    /// The shard that the task writes to.
    pub shard: usize,
    /// Whether the task has scanned its directory.
    pub scanned: bool,
    /// The errors that the task met in its scan, in the order of the
    /// listing.
    pub errors: Vec<ErrorRecord>,
    /// How many of them the task has handed to the error queue.
    pub sent: usize,
}

impl View for Task {
    type V = TaskView;

    open spec fn view(&self) -> TaskView {
        TaskView {
            node: self.node,
            shard: self.shard,
            scanned: self.scanned,
            errors: views(self.errors@),
            sent: self.sent as nat,
        }
    }
}

/// The engine and the synthetic tree that it walks.
pub struct Engine {
    tree: Tree,
    bound: usize,
    capacity: usize,
    queue: Vec<usize>,
    active: Vec<Task>,
    phase: Phase,
    next_shard: usize,
    shards: Vec<DisplayStats>,
    sink: Vec<ErrorRecord>,
    log: Vec<ErrorRecord>,
    scanned: Vec<usize>,
}

impl View for Engine {
    type V = State;

    closed spec fn view(&self) -> State {
        State {
            queue: self.queue@,
            active: views(self.active@),
            phase: self.phase,
            next_shard: self.next_shard,
            shards: views(self.shards@),
            sink: views(self.sink@),
            log: views(self.log@),
            scanned: self.scanned@,
            bound: self.bound,
            capacity: self.capacity,
        }
    }
}

impl Engine {
    /// The tree that the engine walks.
    pub closed spec fn tree(&self) -> Tree {
        self.tree
    }

    /// The engine is in a state that it can reach, and 64 bits hold what
    /// the walk of its tree counts.
    pub open spec fn valid(&self) -> bool {
        inv(self.tree(), self@) && total(self.tree()).counts.fits()
    }

    /// An engine about to walk `tree` with at most `bound` tasks at once and
    /// an error queue of at most `capacity` records, the roots queued;
    /// `None` where the tree is not well formed or 64 bits cannot hold what
    /// its walk counts.
    pub fn new(tree: Tree, bound: usize, capacity: usize) -> (engine: Option<Engine>)
        ensures
            engine is Some <==> tree.wf() && total(tree).counts.fits(),
            engine matches Some(e) ==> e.valid() && e.tree() == tree && e@ == init(
                tree,
                bound,
                capacity,
            ),
    {
        if !tree.well_formed() {
            return None;
        }
        if reference_walk(&tree).is_none() {
            return None;
        }
        let mut queue: Vec<usize> = Vec::new();
        let mut r: usize = 0;
        while r < tree.roots.len()
            invariant
                r <= tree.roots.len(),
                queue@ == tree.roots@.take(r as int),
            decreases tree.roots.len() - r,
        {
            queue.push(tree.roots[r]);
            assert(tree.roots@.take(r as int + 1) =~= tree.roots@.take(r as int).push(
                tree.roots[r as int],
            ));
            r = r + 1;
        }
        assert(tree.roots@.take(r as int) =~= tree.roots@);
        let mut shards: Vec<DisplayStats> = Vec::new();
        let mut i: usize = 0;
        while i < NUM_STATS
            invariant
                i <= NUM_STATS,
                shards.len() == i,
                forall|j: int| 0 <= j < i ==> (#[trigger] shards[j])@ == Counts::zero(),
            decreases NUM_STATS - i,
        {
            shards.push(DisplayStats::new());
            i = i + 1;
        }
        let engine = Engine {
            tree,
            bound,
            capacity,
            queue,
            active: Vec::new(),
            phase: Phase::Ready,
            next_shard: 0,
            shards,
            sink: Vec::new(),
            log: Vec::new(),
            scanned: Vec::new(),
        };
        proof {
            assert(engine@ =~= init(tree, bound, capacity));
            lemma_init_inv(tree, bound, capacity);
        }
        Some(engine)
    }

    /// Whether the walk is over and every error is written out.
    pub fn finished(&self) -> (done: bool)
        ensures
            done == settled(self@),
    {
        match self.phase {
            Phase::Done => self.sink.len() == 0,
            _ => false,
        }
    }

    /// Where the dispatcher stands.
    pub fn phase(&self) -> (phase: Phase)
        ensures
            phase == self@.phase,
    {
        self.phase
    }

    /// Number of scan tasks that are running.
    pub fn active_tasks(&self) -> (n: usize)
        ensures
            n == self@.active.len(),
    {
        self.active.len()
    }

    /// Number of items in the work queue.
    pub fn queued(&self) -> (n: usize)
        ensures
            n == self@.queue.len(),
    {
        self.queue.len()
    }

    /// Number of records in the error queue.
    pub fn buffered(&self) -> (n: usize)
        ensures
            n == self@.sink.len(),
    {
        self.sink.len()
    }

    /// The most tasks that may run at once.
    pub fn bound(&self) -> (n: usize)
        ensures
            n == self@.bound,
    {
        self.bound
    }

    /// The most records that the error queue holds.
    pub fn capacity(&self) -> (n: usize)
        ensures
            n == self@.capacity,
    {
        self.capacity
    }

    /// The errors written out so far, in the order of their arrival.
    pub fn errors(&self) -> (errors: &Vec<ErrorRecord>)
        ensures
            views(errors@) == self@.log,
    {
        &self.log
    }

    /// The directories scanned so far, in the order of their scans.
    pub fn scanned(&self) -> (scanned: &Vec<usize>)
        ensures
            scanned@ == self@.scanned,
    {
        &self.scanned
    }

    /// All shards summed.
    pub fn counts(&self) -> (sum: DisplayStats)
        requires
            self.valid(),
        ensures
            sum@ == pool_sum(self@.shards),
    {
        proof {
            lemma_pool_within_total(self.tree, self@);
        }
        accumulate(&self.shards).unwrap()
    }

    /// The event that brings the engine nearer to its end.
    pub fn fair_event(&self) -> (event: Event)
        ensures
            event == fair(self@),
    {
        if self.sink.len() > 0 {
            Event::Drain
        } else if self.active.len() > 0 {
            Event::Advance(0)
        } else {
            Event::Dispatch
        }
    }

    /// Takes the oldest item from the queue.
    fn take_head(&mut self) -> (got: Option<usize>)
        ensures
            got == head(old(self).queue@),
            got is Some ==> final(self).queue@ == old(self).queue@.remove(0),
            got is None ==> final(self).queue@ == old(self).queue@,
            final(self).tree == old(self).tree,
            final(self).bound == old(self).bound,
            final(self).capacity == old(self).capacity,
            final(self).active == old(self).active,
            final(self).phase == old(self).phase,
            final(self).next_shard == old(self).next_shard,
            final(self).shards == old(self).shards,
            final(self).sink == old(self).sink,
            final(self).log == old(self).log,
            final(self).scanned == old(self).scanned,
    {
        if self.queue.len() > 0 {
            Some(self.queue.remove(0))
        } else {
            None
        }
    }

    /// The dispatcher's step.
    fn dispatch(&mut self)
        requires
            old(self).valid(),
        ensures
            final(self).tree() == old(self).tree(),
            final(self)@ == dispatch(old(self)@),
    {
        match self.phase {
            Phase::Ready => {
                match after_dequeue(self.take_head()) {
                    Verdict::Spawn(node) => {
                        self.phase = Phase::Admitting { node };
                    },
                    _ => {
                        self.phase = Phase::Probing;
                    },
                }
            },
            Phase::Admitting { node } => {
                if may_admit(self.active.len(), self.bound) {
                    let task = Task {
                        node,
                        shard: self.next_shard,
                        scanned: false,
                        errors: Vec::new(),
                        sent: 0,
                    };
                    assert(task@ =~= crate::model::fresh_task(node, self.next_shard));
                    self.active.push(task);
                    self.next_shard = next_shard(self.next_shard);
                    self.phase = Phase::Ready;
                }
            },
            Phase::Probing => {
                let verdict: Verdict<usize> = match self.active.len().checked_add(1) {
                    Some(producers) => after_count(producers),
                    None => Verdict::Backoff,
                };
                match verdict {
                    Verdict::Recheck => {
                        self.phase = Phase::Rechecking;
                    },
                    _ => {
                        self.phase = Phase::Ready;
                    },
                }
            },
            Phase::Rechecking => {
                match after_recheck(self.take_head()) {
                    Verdict::Spawn(node) => {
                        self.phase = Phase::Admitting { node };
                    },
                    _ => {
                        self.phase = Phase::Done;
                    },
                }
            },
            Phase::Done => {},
        }
        assert(self@ =~= dispatch(old(self)@));
    }

    /// The step of the task at position `k`.
    fn advance(&mut self, k: usize)
        requires
            old(self).valid(),
            k < old(self)@.active.len(),
        ensures
            final(self).tree() == old(self).tree(),
            final(self)@ == advance(old(self).tree(), old(self)@, k as int),
    {
        assert(task_ok(self.tree, self@.active[k as int]));
        let ghost before = self@;
        let ghost task = before.active[k as int];
        if !self.active[k].scanned {
            proof {
                lemma_scan_fits(self.tree, self@, k as int);
            }
            let node: usize = self.active[k].node;
            let shard: usize = self.active[k].shard;
            let item = self.tree.work_item(node);
            let out = scan_directory(&item, self.tree.read_dir(node));
            let mut found = self.tree.discover(node);
            let sum = self.shards[shard].plus(out.counts);
            self.shards.set(shard, sum);
            self.queue.append(&mut found);
            self.scanned.push(node);
            assert(views(self.shards@) =~= before.shards.update(shard as int, sum@));
            if out.errors.len() == 0 {
                self.active.remove(k);
                assert(views(self.active@) =~= before.active.remove(k as int));
            } else {
                let left = Task { node, shard, scanned: true, errors: out.errors, sent: 0 };
                assert(left@ =~= (TaskView {
                    scanned: true,
                    errors: views(out.errors@),
                    sent: 0,
                    ..task
                }));
                self.active.set(k, left);
                assert(views(self.active@) =~= before.active.update(k as int, left@));
            }
            assert(self@ =~= scan_step(old(self).tree(), before, k as int));
        } else if self.active[k].sent < self.active[k].errors.len() && self.sink.len()
            < self.capacity {
            let sent: usize = self.active[k].sent;
            let record = copy_record(&self.active[k].errors[sent]);
            self.sink.push(record);
            assert(views(self.sink@) =~= before.sink.push(task.errors[sent as int]));
            if sent + 1 == self.active[k].errors.len() {
                self.active.remove(k);
                assert(views(self.active@) =~= before.active.remove(k as int));
            } else {
                self.active[k].sent = sent + 1;
                assert(views(self.active@) =~= before.active.update(
                    k as int,
                    TaskView { sent: task.sent + 1, ..task },
                ));
            }
            assert(self@ =~= report_step(before, k as int));
        }
    }

    /// The consumer's step.
    fn drain(&mut self)
        ensures
            final(self).tree() == old(self).tree(),
            final(self)@ == drain(old(self)@),
    {
        if self.sink.len() > 0 {
            let record = self.sink.remove(0);
            self.log.push(record);
        }
        assert(self@ =~= drain(old(self)@));
    }

    /// Lets one event happen.
    pub fn step(&mut self, event: Event)
        requires
            old(self).valid(),
        ensures
            final(self).valid(),
            final(self).tree() == old(self).tree(),
            final(self)@ == next(old(self).tree(), old(self)@, event),
    {
        proof {
            lemma_next_inv(self.tree, self@, event);
        }
        match event {
            Event::Dispatch => {
                self.dispatch();
            },
            Event::Advance(k) => {
                if k < self.active.len() {
                    self.advance(k);
                }
            },
            Event::Drain => {
                self.drain();
            },
            Event::Delay => {},
        }
    }

    /// Lets the events of `schedule` happen, in their order.
    pub fn play(&mut self, schedule: &Vec<Event>)
        requires
            old(self).valid(),
        ensures
            final(self).valid(),
            final(self).tree() == old(self).tree(),
            final(self)@ == trace(old(self).tree(), old(self)@, schedule@),
            final(self)@.bound == old(self)@.bound,
            final(self)@.capacity == old(self)@.capacity,
    {
        let mut i: usize = 0;
        assert(schedule@.take(0) =~= Seq::<Event>::empty());
        while i < schedule.len()
            invariant
                i <= schedule.len(),
                self.valid(),
                self.tree() == old(self).tree(),
                self@ == trace(old(self).tree(), old(self)@, schedule@.take(i as int)),
                self@.bound == old(self)@.bound,
                self@.capacity == old(self)@.capacity,
            decreases schedule.len() - i,
        {
            assert(schedule@.take(i as int + 1).drop_last() =~= schedule@.take(i as int));
            self.step(schedule[i]);
            i = i + 1;
        }
        assert(schedule@.take(i as int) =~= schedule@);
    }

    /// Lets fair events happen until the walk is over and every error is
    /// written out.
    pub fn settle(&mut self)
        requires
            old(self).valid(),
            old(self)@.bound >= 1,
            old(self)@.capacity >= 1,
        ensures
            final(self).valid(),
            final(self).tree() == old(self).tree(),
            settled(final(self)@),
            exists|events: Seq<Event>|
                final(self)@ == trace(old(self).tree(), old(self)@, events),
    {
        let ghost mut log: Seq<Event> = Seq::empty();
        while !self.finished()
            invariant
                self.valid(),
                self@.bound >= 1,
                self@.capacity >= 1,
                self.tree() == old(self).tree(),
                self@ == trace(old(self).tree(), old(self)@, log),
            decreases measure(self.tree(), self@),
        {
            let event = self.fair_event();
            proof {
                lemma_fair_progress(self.tree, self@);
                lemma_next_inv(self.tree, self@, event);
                lemma_work_left(self.tree, next(self.tree, self@, event));
                assert(log.push(event).drop_last() =~= log);
                log = log.push(event);
            }
            self.step(event);
        }
    }

    /// What the walk has counted and written out.
    pub fn outcome(self) -> (out: Outcome)
        requires
            self.valid(),
        ensures
            out.counts@ == pool_sum(self@.shards),
            views(out.errors@) == self@.log,
            settled(self@) ==> out.agrees_with(total(self.tree())),
    {
        proof {
            if settled(self@) {
                lemma_settled_total(self.tree, self@);
            }
        }
        let counts = self.counts();
        Outcome { counts, errors: self.log }
    }
}

/// Walks `tree` with at most `bound` tasks at once and an error queue of at
/// most `capacity` records: first the events of `schedule` in their order,
/// whatever they are, then fair events until the walk is over and every
/// error is written out. `None` where the tree is not well formed, where 64
/// bits cannot hold what its walk counts, or where `bound` or `capacity` is
/// zero.
pub fn run(tree: Tree, bound: usize, capacity: usize, schedule: &Vec<Event>) -> (out: Option<
    Outcome,
>)
    ensures
        out is Some <==> tree.wf() && total(tree).counts.fits() && bound >= 1 && capacity >= 1,
        out matches Some(o) ==> o.agrees_with(total(tree)),
{
    if bound == 0 || capacity == 0 {
        return None;
    }
    match Engine::new(tree, bound, capacity) {
        None => None,
        Some(engine) => {
            let mut engine = engine;
            engine.play(schedule);
            engine.settle();
            Some(engine.outcome())
        },
    }
}

} // verus!
