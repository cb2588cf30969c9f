//! The engine as a machine of states and events: a dispatcher, a work queue,
//! a bounded pool of scan tasks, a pool of counter shards and a bounded
//! queue of errors with its consumer, run on a synthetic tree. Every event
//! is one step of one party; any order of events is an interleaving that a
//! scheduler may choose.

use vstd::prelude::*;
use vstd::multiset::Multiset;
use crate::rules::{admits, count_verdict, dequeue_verdict, recheck_verdict, shard_after, Verdict};
use crate::scan::{scan, ErrorView};
use crate::stats::{
    lemma_pool_sum_member,
    lemma_pool_sum_update,
    lemma_pool_sum_zero,
    pool_sum,
    Counts,
    NUM_STATS,
};
use crate::tree::{lemma_discovered_members, Tree};
use crate::walk::{
    lemma_price_plus,
    lemma_walk_all_concat,
    lemma_walk_all_push,
    lemma_walk_all_remove,
    lemma_walk_enters,
    lemma_walk_unfold,
    price,
    total,
    walk,
    walk_all,
    Tally,
};

verus! {

/// One step of one party.
#[derive(Copy, Clone, Debug, PartialEq, Eq, Structural)]
pub enum Event {
    /// The dispatcher takes its next step.
    Dispatch,
    /// The active task at this position takes its next step: it scans its
    /// directory, or hands the oldest of its errors to the error queue, and
    /// ends with the step after which it has nothing left to do.
    Advance(usize),
    /// The consumer of the error queue writes out the oldest record.
    Drain,
    /// Nobody moves.
    Delay,
}

/// Where the dispatcher stands between two of its steps.
#[derive(Copy, Clone, Debug, PartialEq, Eq, Structural)]
pub enum Phase {
    /// About to look at the queue.
    Ready,
    /// Holding an item, waiting for the pool to take it.
    Admitting { node: usize },
    /// Found the queue empty; about to count the producers.
    Probing,
    /// Counted itself alone; about to look at the queue once more.
    Rechecking,
    /// Queue and pool are closed.
    Done,
}

/// A running scan task.
#[verifier::ext_equal]
pub struct TaskView {
    /// The directory that the task was given.
    pub node: usize,
    /// The shard that the task writes to.
    pub shard: usize,
    /// Whether the task has scanned its directory.
    pub scanned: bool,
    /// The errors that the task met in its scan, in the order of the
    /// listing.
    pub errors: Seq<ErrorView>,
    /// How many of them the task has handed to the error queue.
    pub sent: nat,
}

impl TaskView {
    /// The errors that the task has yet to hand over, oldest first.
    pub open spec fn unsent(self) -> Seq<ErrorView> {
        self.errors.skip(self.sent as int)
    }
}

/// A state of the engine.
#[verifier::ext_equal]
pub struct State {
    /// The work queue, oldest item first.
    pub queue: Seq<usize>,
    /// The running scan tasks.
    pub active: Seq<TaskView>,
    pub phase: Phase,
    /// The shard that the next task will write to.
    pub next_shard: usize,
    /// The counter shards.
    pub shards: Seq<Counts>,
    /// The error queue, oldest record first.
    pub sink: Seq<ErrorView>,
    /// The errors written out so far, in the order of their arrival.
    pub log: Seq<ErrorView>,
    /// The directories scanned so far, in the order of their scans.
    pub scanned: Seq<usize>,
    /// The most tasks that may be active at once.
    pub bound: usize,
    /// The most records that the error queue holds.
    pub capacity: usize,
}

/// The item that the dispatcher holds, if it holds one.
pub open spec fn held(phase: Phase) -> Seq<usize> {
    match phase {
        Phase::Admitting { node } => seq![node],
        _ => Seq::empty(),
    }
}

/// The oldest item of the queue, if there is one.
pub open spec fn head(queue: Seq<usize>) -> Option<usize> {
    if queue.len() > 0 {
        Some(queue[0])
    } else {
        None
    }
}

/// The state in which the engine starts: the roots queued, nothing running.
pub open spec fn init(tree: Tree, bound: usize, capacity: usize) -> State {
    State {
        queue: tree.roots@,
        active: Seq::empty(),
        phase: Phase::Ready,
        next_shard: 0,
        shards: Seq::new(NUM_STATS as nat, |i: int| Counts::zero()),
        sink: Seq::empty(),
        log: Seq::empty(),
        scanned: Seq::empty(),
        bound,
        capacity,
    }
}

/// A task that has just been started on the directory at `node`.
pub open spec fn fresh_task(node: usize, shard: usize) -> TaskView {
    TaskView { node, shard, scanned: false, errors: Seq::empty(), sent: 0 }
}

/// The state after the dispatcher's step.
pub open spec fn dispatch(s: State) -> State {
    match s.phase {
        Phase::Ready => match dequeue_verdict(head(s.queue)) {
            Verdict::Spawn(node) => State {
                queue: s.queue.remove(0),
                phase: Phase::Admitting { node },
                ..s
            },
            _ => State { phase: Phase::Probing, ..s },
        },
        Phase::Admitting { node } => if admits(s.active.len(), s.bound as nat) {
            State {
                active: s.active.push(fresh_task(node, s.next_shard)),
                next_shard: shard_after(s.next_shard as nat) as usize,
                phase: Phase::Ready,
                ..s
            }
        } else {
            s
        },
        Phase::Probing => match count_verdict::<usize>(1 + s.active.len()) {
            Verdict::Recheck => State { phase: Phase::Rechecking, ..s },
            _ => State { phase: Phase::Ready, ..s },
        },
        Phase::Rechecking => match recheck_verdict(head(s.queue)) {
            Verdict::Spawn(node) => State {
                queue: s.queue.remove(0),
                phase: Phase::Admitting { node },
                ..s
            },
            _ => State { phase: Phase::Done, ..s },
        },
        Phase::Done => s,
    }
}

/// The state after the task at position `k` has scanned its directory: its
/// shard holds what it counted, what it discovered is queued, and the task
/// is left with the errors that it met, or gone where it met none.
pub open spec fn scan_step(tree: Tree, s: State, k: int) -> State {
    let task = s.active[k];
    let out = scan(tree.item(task.node), tree.listing(task.node));
    State {
        queue: s.queue + tree.discovered(task.node),
        active: if out.errors.len() == 0 {
            s.active.remove(k)
        } else {
            s.active.update(k, TaskView { scanned: true, errors: out.errors, sent: 0, ..task })
        },
        shards: s.shards.update(
            task.shard as int,
            s.shards[task.shard as int].plus(out.counts),
        ),
        scanned: s.scanned.push(task.node),
        ..s
    }
}

/// The state after the task at position `k` has handed the next of its
/// errors to the error queue: the task is left with the others, or gone
/// where this was the last.
pub open spec fn report_step(s: State, k: int) -> State {
    let task = s.active[k];
    State {
        sink: s.sink.push(task.errors[task.sent as int]),
        active: if task.sent + 1 == task.errors.len() {
            s.active.remove(k)
        } else {
            s.active.update(k, TaskView { sent: task.sent + 1, ..task })
        },
        ..s
    }
}

/// The state after the step of the task at position `k`. A task with an
/// error to hand over waits, and nothing changes, while the error queue is
/// full.
pub open spec fn advance(tree: Tree, s: State, k: int) -> State {
    let task = s.active[k];
    if !task.scanned {
        scan_step(tree, s, k)
    } else if task.sent < task.errors.len() && s.sink.len() < s.capacity {
        report_step(s, k)
    } else {
        s
    }
}

/// The state after the consumer's step: the oldest record of the error
/// queue is written out.
pub open spec fn drain(s: State) -> State {
    if s.sink.len() > 0 {
        State { log: s.log.push(s.sink[0]), sink: s.sink.remove(0), ..s }
    } else {
        s
    }
}

/// The state after one event.
pub open spec fn next(tree: Tree, s: State, event: Event) -> State {
    match event {
        Event::Dispatch => dispatch(s),
        Event::Advance(k) => if k < s.active.len() {
            advance(tree, s, k as int)
        } else {
            s
        },
        Event::Drain => drain(s),
        Event::Delay => s,
    }
}

/// The state after a run of events.
pub open spec fn trace(tree: Tree, s: State, events: Seq<Event>) -> State
    decreases events.len(),
{
    if events.len() == 0 {
        s
    } else {
        next(tree, trace(tree, s, events.drop_last()), events.last())
    }
}

/// The walk is over and every error is written out.
pub open spec fn settled(s: State) -> bool {
    s.phase is Done && s.sink.len() == 0
}

/// What a running task still stands for: the walk of its directory before
/// it has scanned it, and after that the errors that it has yet to hand
/// over.
pub open spec fn carried(tree: Tree, task: TaskView) -> Tally {
    if task.scanned {
        Tally {
            counts: Counts::zero(),
            errors: task.unsent().to_multiset(),
            entered: Multiset::empty(),
        }
    } else {
        walk(tree, task.node)
    }
}

/// What the running tasks stand for together.
pub open spec fn carried_all(tree: Tree, active: Seq<TaskView>) -> Tally
    decreases active.len(),
{
    if active.len() == 0 {
        Tally::zero()
    } else {
        carried_all(tree, active.drop_last()).plus(carried(tree, active.last()))
    }
}

/// Two for a task that has not scanned its directory yet, none for another.
pub open spec fn start_up(task: TaskView) -> nat {
    if task.scanned {
        0
    } else {
        2
    }
}

/// Two for each running task that has not scanned its directory yet.
pub open spec fn start_ups(active: Seq<TaskView>) -> nat
    decreases active.len(),
{
    if active.len() == 0 {
        0
    } else {
        start_ups(active.drop_last()) + start_up(active.last())
    }
}

/// What the scans of the directories at `ids` have counted together.
pub open spec fn counted(tree: Tree, ids: Seq<usize>) -> Counts
    decreases ids.len(),
{
    if ids.len() == 0 {
        Counts::zero()
    } else {
        counted(tree, ids.drop_last()).plus(
            scan(tree.item(ids.last()), tree.listing(ids.last())).counts,
        )
    }
}

/// What the completed scans and the errors that have left their tasks
/// amount to.
pub open spec fn banked(s: State) -> Tally {
    Tally {
        counts: pool_sum(s.shards),
        errors: (s.log + s.sink).to_multiset(),
        entered: s.scanned.to_multiset(),
    }
}

/// What the directories still queued or held, and the running tasks, stand
/// for.
pub open spec fn owed(tree: Tree, s: State) -> Tally {
    walk_all(tree, s.queue).plus(walk_all(tree, held(s.phase))).plus(
        carried_all(tree, s.active),
    )
}

/// The directory at `x` is work in its own right: a root, or discovered by
/// the scan of a directory.
pub open spec fn sought(tree: Tree, x: usize) -> bool {
    ||| tree.roots@.contains(x)
    ||| exists|d: usize| d < tree.nodes.len() && #[trigger] tree.discovered(d).contains(x)
}

/// The directory at `x` can be scanned.
pub open spec fn workable(tree: Tree, x: usize) -> bool {
    &&& x < tree.nodes.len()
    &&& tree.nodes[x as int].entry is Found
    &&& sought(tree, x)
}

/// A running task is in order: its directory can be scanned and its shard
/// exists; before its scan it holds no error; after its scan it holds the
/// errors of that scan, in the order of the listing, and has at least one
/// of them yet to hand over.
pub open spec fn task_ok(tree: Tree, task: TaskView) -> bool {
    &&& workable(tree, task.node)
    &&& task.shard < NUM_STATS
    &&& !task.scanned ==> task.errors.len() == 0 && task.sent == 0
    &&& task.scanned ==> task.errors == scan(
        tree.item(task.node),
        tree.listing(task.node),
    ).errors && task.sent < task.errors.len()
}

/// What holds of every state that the engine reaches.
pub open spec fn inv(tree: Tree, s: State) -> bool {
    &&& tree.wf()
    &&& s.shards.len() == NUM_STATS
    &&& s.next_shard < NUM_STATS
    &&& forall|k: int| 0 <= k < s.queue.len() ==> workable(tree, #[trigger] s.queue[k])
    &&& forall|k: int| 0 <= k < s.active.len() ==> task_ok(tree, #[trigger] s.active[k])
    &&& s.phase matches Phase::Admitting { node } ==> workable(tree, node)
    &&& forall|k: int| 0 <= k < s.scanned.len() ==> workable(tree, #[trigger] s.scanned[k])
    &&& s.active.len() <= s.bound
    &&& s.sink.len() <= s.capacity
    &&& pool_sum(s.shards) == counted(tree, s.scanned)
    &&& banked(s).plus(owed(tree, s)) == total(tree)
    &&& s.phase is Rechecking ==> s.active.len() == 0
    &&& s.phase is Done ==> s.active.len() == 0 && s.queue.len() == 0
}

/// The steps that are left at the least: the price of what is owed, less
/// the steps that the held item and the running tasks have taken, and one
/// for each record in the error queue.
pub open spec fn work_left(tree: Tree, s: State) -> int {
    price(owed(tree, s)) - start_ups(s.active) - held(s.phase).len() + s.sink.len()
}

/// How far the engine is from the end: the work left, and, once no task is
/// running and the error queue is empty, the steps that the dispatcher
/// needs to see that it is alone.
pub open spec fn measure(tree: Tree, s: State) -> int {
    4 * work_left(tree, s) + if s.active.len() > 0 || s.sink.len() > 0 {
        3int
    } else {
        match s.phase {
            Phase::Ready => 3int,
            Phase::Admitting { .. } => 3int,
            Phase::Probing => 2int,
            Phase::Rechecking => 1int,
            Phase::Done => 0int,
        }
    }
}

/// The event that a scheduler takes when it wants the engine to end: the
/// consumer writes out a record; with the error queue empty, a running task
/// moves; with none running, the dispatcher moves.
pub open spec fn fair(s: State) -> Event {
    if s.sink.len() > 0 {
        Event::Drain
    } else if s.active.len() > 0 {
        Event::Advance(0)
    } else {
        Event::Dispatch
    }
}

/// One more task adds what it stands for.
pub proof fn lemma_carried_push(tree: Tree, active: Seq<TaskView>, task: TaskView)
    ensures
        carried_all(tree, active.push(task)) == carried_all(tree, active).plus(carried(tree, task)),
        start_ups(active.push(task)) == start_ups(active) + start_up(task),
{
    assert(active.push(task).drop_last() =~= active);
}

/// A task that ends takes with it what it stood for.
pub proof fn lemma_carried_remove(tree: Tree, active: Seq<TaskView>, k: int)
    requires
        0 <= k < active.len(),
    ensures
        carried_all(tree, active) == carried_all(tree, active.remove(k)).plus(
            carried(tree, active[k]),
        ),
        start_ups(active) == start_ups(active.remove(k)) + start_up(active[k]),
    decreases active.len(),
{
    if k == active.len() - 1 {
        assert(active.remove(k) =~= active.drop_last());
    } else {
        lemma_carried_remove(tree, active.drop_last(), k);
        assert(active.remove(k).drop_last() =~= active.drop_last().remove(k));
        assert(active.remove(k).last() == active.last());
        let rest = carried_all(tree, active.drop_last().remove(k));
        assert(rest.plus(carried(tree, active[k])).plus(carried(tree, active.last())) =~= rest.plus(
            carried(tree, active.last()),
        ).plus(carried(tree, active[k])));
    }
}

/// A task that changes stands for something else; the others for the same.
pub proof fn lemma_carried_update(tree: Tree, active: Seq<TaskView>, k: int, task: TaskView)
    requires
        0 <= k < active.len(),
    ensures
        carried_all(tree, active.update(k, task)).plus(carried(tree, active[k])) == carried_all(
            tree,
            active,
        ).plus(carried(tree, task)),
        start_ups(active.update(k, task)) + start_up(active[k]) == start_ups(active) + start_up(
            task,
        ),
{
    let after = active.update(k, task);
    lemma_carried_remove(tree, active, k);
    lemma_carried_remove(tree, after, k);
    assert(after.remove(k) =~= active.remove(k));
    let rest = carried_all(tree, active.remove(k));
    assert(rest.plus(carried(tree, task)).plus(carried(tree, active[k])) =~= rest.plus(
        carried(tree, active[k]),
    ).plus(carried(tree, task)));
}

/// Each running task that is in order has at least one step before it.
pub proof fn lemma_carried_price(tree: Tree, active: Seq<TaskView>)
    requires
        forall|k: int| 0 <= k < active.len() ==> task_ok(tree, #[trigger] active[k]),
    ensures
        price(carried_all(tree, active)) - start_ups(active) >= active.len(),
    decreases active.len(),
{
    if active.len() > 0 {
        let task = active.last();
        assert(task_ok(tree, task));
        assert forall|k: int| 0 <= k < active.drop_last().len() implies task_ok(
            tree,
            #[trigger] active.drop_last()[k],
        ) by {
            assert(active.drop_last()[k] == active[k]);
        }
        lemma_carried_price(tree, active.drop_last());
        lemma_price_plus(carried_all(tree, active.drop_last()), carried(tree, task));
        if task.scanned {
            task.unsent().to_multiset_ensures();
        } else {
            lemma_walk_enters(tree, task.node);
        }
    }
}

/// A run of records without a record is a bag without one.
pub proof fn lemma_no_records(records: Seq<ErrorView>)
    requires
        records.len() == 0,
    ensures
        records.to_multiset() == Multiset::<ErrorView>::empty(),
{
    records.to_multiset_ensures();
    assert(records.to_multiset() =~= Multiset::<ErrorView>::empty());
}

/// The engine starts in a state of which the invariant holds.
pub proof fn lemma_init_inv(tree: Tree, bound: usize, capacity: usize)
    requires
        tree.wf(),
    ensures
        inv(tree, init(tree, bound, capacity)),
{
    let s = init(tree, bound, capacity);
    lemma_pool_sum_zero(s.shards);
    lemma_no_records(s.log + s.sink);
    s.scanned.to_multiset_ensures();
    assert(s.scanned.to_multiset() =~= Multiset::<usize>::empty());
    assert(walk_all(tree, Seq::<usize>::empty()) == Tally::zero());
    assert(held(s.phase) =~= Seq::<usize>::empty());
    assert(banked(s) =~= Tally::zero());
    assert(owed(tree, s) =~= total(tree));
    assert(banked(s).plus(owed(tree, s)) =~= total(tree));
    assert forall|k: int| 0 <= k < s.queue.len() implies workable(tree, #[trigger] s.queue[k]) by {
        assert(tree.roots@.contains(s.queue[k]));
    }
}

/// What the scan of a workable directory discovers is workable.
pub proof fn lemma_discovered_workable(tree: Tree, d: usize, x: usize)
    requires
        tree.wf(),
        d < tree.nodes.len(),
        tree.discovered(d).contains(x),
    ensures
        workable(tree, x),
{
    lemma_discovered_members(tree, d, x);
}

/// Taking the oldest item from the queue into the dispatcher's hand keeps
/// the invariant.
proof fn lemma_take_head(tree: Tree, s: State)
    requires
        inv(tree, s),
        s.queue.len() > 0,
        s.phase is Ready || s.phase is Rechecking,
    ensures
        inv(
            tree,
            State { queue: s.queue.remove(0), phase: Phase::Admitting { node: s.queue[0] }, ..s },
        ),
{
    let node = s.queue[0];
    let t = State { queue: s.queue.remove(0), phase: Phase::Admitting { node }, ..s };
    assert(workable(tree, s.queue[0]));
    lemma_walk_all_remove(tree, s.queue, 0);
    assert(seq![node] =~= Seq::<usize>::empty().push(node));
    lemma_walk_all_push(tree, Seq::<usize>::empty(), node);
    assert(held(s.phase) =~= Seq::<usize>::empty());
    assert(owed(tree, t) =~= owed(tree, s));
    assert forall|k: int| 0 <= k < t.queue.len() implies workable(tree, #[trigger] t.queue[k]) by {
        assert(t.queue[k] == s.queue[k + 1]);
    }
}

/// The dispatcher's step keeps the invariant.
pub proof fn lemma_dispatch_inv(tree: Tree, s: State)
    requires
        inv(tree, s),
    ensures
        inv(tree, dispatch(s)),
{
    let t = dispatch(s);
    match s.phase {
        Phase::Ready => {
            if s.queue.len() > 0 {
                lemma_take_head(tree, s);
            } else {
                assert(owed(tree, t) =~= owed(tree, s));
            }
        },
        Phase::Admitting { node } => {
            if admits(s.active.len(), s.bound as nat) {
                let task = fresh_task(node, s.next_shard);
                lemma_carried_push(tree, s.active, task);
                assert(seq![node] =~= Seq::<usize>::empty().push(node));
                lemma_walk_all_push(tree, Seq::<usize>::empty(), node);
                assert(owed(tree, t) =~= owed(tree, s));
                assert(shard_after(s.next_shard as nat) < NUM_STATS) by (nonlinear_arith)
                    requires
                        NUM_STATS == 12,
                ;
                assert forall|k: int| 0 <= k < t.active.len() implies task_ok(
                    tree,
                    #[trigger] t.active[k],
                ) by {
                    if k < s.active.len() {
                        assert(t.active[k] == s.active[k]);
                    }
                }
            }
        },
        Phase::Probing => {
            assert(owed(tree, t) =~= owed(tree, s));
        },
        Phase::Rechecking => {
            if s.queue.len() > 0 {
                lemma_take_head(tree, s);
            } else {
                assert(owed(tree, t) =~= owed(tree, s));
            }
        },
        Phase::Done => {},
    }
}

/// After a task has ended or changed, the running tasks are in order.
proof fn lemma_tasks_ok(tree: Tree, before: Seq<TaskView>, after: Seq<TaskView>, k: int)
    requires
        0 <= k < before.len(),
        forall|j: int| 0 <= j < before.len() ==> task_ok(tree, #[trigger] before[j]),
        after == before.remove(k) || (after.len() == before.len() && task_ok(tree, after[k])
            && forall|j: int| 0 <= j < before.len() && j != k ==> after[j] == before[j]),
    ensures
        forall|j: int| 0 <= j < after.len() ==> task_ok(tree, #[trigger] after[j]),
{
    assert forall|j: int| 0 <= j < after.len() implies task_ok(tree, #[trigger] after[j]) by {
        if after == before.remove(k) {
            if j < k {
                assert(after[j] == before[j]);
            } else {
                assert(after[j] == before[j + 1]);
            }
        } else if j != k {
            assert(after[j] == before[j]);
        }
    }
}

/// The scan of a task keeps the invariant.
pub proof fn lemma_scan_step_inv(tree: Tree, s: State, k: int)
    requires
        inv(tree, s),
        0 <= k < s.active.len(),
        !s.active[k].scanned,
    ensures
        inv(tree, scan_step(tree, s, k)),
{
    let t = scan_step(tree, s, k);
    let task = s.active[k];
    let d = task.node;
    let out = scan(tree.item(d), tree.listing(d));
    let left = TaskView { scanned: true, errors: out.errors, sent: 0, ..task };
    assert(task_ok(tree, s.active[k]));
    assert(left.unsent() =~= out.errors);
    lemma_walk_unfold(tree, d);
    lemma_walk_all_concat(tree, s.queue, tree.discovered(d));
    lemma_pool_sum_update(s.shards, task.shard as int, out.counts);
    s.scanned.to_multiset_ensures();
    assert(t.scanned.to_multiset() =~= s.scanned.to_multiset().add(Multiset::singleton(d)));
    assert(t.scanned.drop_last() =~= s.scanned);
    if out.errors.len() == 0 {
        lemma_carried_remove(tree, s.active, k);
        lemma_no_records(out.errors);
    } else {
        lemma_carried_update(tree, s.active, k, left);
    }
    let rest = if out.errors.len() == 0 {
        carried_all(tree, t.active)
    } else {
        carried_all(tree, s.active.remove(k))
    };
    if out.errors.len() > 0 {
        lemma_carried_remove(tree, s.active, k);
        lemma_carried_remove(tree, t.active, k);
        assert(t.active.remove(k) =~= s.active.remove(k));
    }
    assert(banked(t).plus(owed(tree, t)) =~= banked(s).plus(owed(tree, s)));
    assert forall|j: int| 0 <= j < t.queue.len() implies workable(tree, #[trigger] t.queue[j]) by {
        if j >= s.queue.len() {
            let x = tree.discovered(d)[j - s.queue.len()];
            assert(tree.discovered(d).contains(x));
            lemma_discovered_workable(tree, d, x);
        }
    }
    lemma_tasks_ok(tree, s.active, t.active, k);
}

/// The handing over of an error keeps the invariant.
pub proof fn lemma_report_step_inv(tree: Tree, s: State, k: int)
    requires
        inv(tree, s),
        0 <= k < s.active.len(),
        s.active[k].scanned,
        s.sink.len() < s.capacity,
    ensures
        inv(tree, report_step(s, k)),
{
    let t = report_step(s, k);
    let task = s.active[k];
    assert(task_ok(tree, s.active[k]));
    let record = task.errors[task.sent as int];
    let left = TaskView { sent: task.sent + 1, ..task };
    assert(s.log + s.sink.push(record) =~= (s.log + s.sink).push(record));
    (s.log + s.sink).to_multiset_ensures();
    task.unsent().to_multiset_ensures();
    assert(task.unsent()[0] == record);
    assert(task.unsent().remove(0) =~= left.unsent());
    lemma_carried_remove(tree, s.active, k);
    if task.sent + 1 == task.errors.len() {
        lemma_no_records(left.unsent());
    } else {
        lemma_carried_remove(tree, t.active, k);
        assert(t.active.remove(k) =~= s.active.remove(k));
    }
    assert(task.unsent().to_multiset() =~= left.unsent().to_multiset().add(
        Multiset::singleton(record),
    ));
    assert(t.log + t.sink == (s.log + s.sink).push(record));
    assert((t.log + t.sink).to_multiset() =~= (s.log + s.sink).to_multiset().add(
        Multiset::singleton(record),
    ));
    assert(banked(t).plus(owed(tree, t)) =~= banked(s).plus(owed(tree, s)));
    lemma_tasks_ok(tree, s.active, t.active, k);
}

/// The consumer's step keeps the invariant.
pub proof fn lemma_drain_inv(tree: Tree, s: State)
    requires
        inv(tree, s),
    ensures
        inv(tree, drain(s)),
{
    let t = drain(s);
    if s.sink.len() > 0 {
        assert(t.log + t.sink =~= s.log + s.sink);
    }
}

/// Every event keeps the invariant.
pub proof fn lemma_next_inv(tree: Tree, s: State, event: Event)
    requires
        inv(tree, s),
    ensures
        inv(tree, next(tree, s, event)),
{
    match event {
        Event::Dispatch => lemma_dispatch_inv(tree, s),
        Event::Advance(k) => {
            if k < s.active.len() {
                assert(task_ok(tree, s.active[k as int]));
                if !s.active[k as int].scanned {
                    lemma_scan_step_inv(tree, s, k as int);
                } else if s.sink.len() < s.capacity {
                    lemma_report_step_inv(tree, s, k as int);
                }
            }
        },
        Event::Drain => lemma_drain_inv(tree, s),
        Event::Delay => {},
    }
}

/// Every run of events keeps the invariant.
pub proof fn lemma_trace_inv(tree: Tree, s: State, events: Seq<Event>)
    requires
        inv(tree, s),
    ensures
        inv(tree, trace(tree, s, events)),
    decreases events.len(),
{
    if events.len() > 0 {
        lemma_trace_inv(tree, s, events.drop_last());
        lemma_next_inv(tree, trace(tree, s, events.drop_last()), events.last());
    }
}

/// The work left, from what has been done: the price of the whole walk,
/// less three for each scan completed, two for each record written out, one
/// for each record in the error queue, and the steps that the held item and
/// the running tasks have taken.
pub proof fn lemma_work_left(tree: Tree, s: State)
    requires
        inv(tree, s),
    ensures
        work_left(tree, s) == price(total(tree)) - 3 * s.scanned.len() - 2 * s.log.len()
            - s.sink.len() - start_ups(s.active) - held(s.phase).len(),
        work_left(tree, s) >= s.active.len() + s.sink.len(),
        measure(tree, s) >= 0,
        settled(s) ==> measure(tree, s) == 0,
{
    lemma_price_plus(banked(s), owed(tree, s));
    (s.log + s.sink).to_multiset_ensures();
    s.scanned.to_multiset_ensures();
    lemma_price_plus(
        walk_all(tree, s.queue).plus(walk_all(tree, held(s.phase))),
        carried_all(tree, s.active),
    );
    lemma_price_plus(walk_all(tree, s.queue), walk_all(tree, held(s.phase)));
    lemma_carried_price(tree, s.active);
    match s.phase {
        Phase::Admitting { node } => {
            assert(seq![node] =~= Seq::<usize>::empty().push(node));
            lemma_walk_all_push(tree, Seq::<usize>::empty(), node);
            lemma_walk_enters(tree, node);
            lemma_price_plus(Tally::zero(), walk(tree, node));
        },
        _ => {},
    }
    if settled(s) {
        assert(s.queue =~= Seq::<usize>::empty());
        assert(s.active =~= Seq::<TaskView>::empty());
    }
}

/// No event takes the engine further from the end.
pub proof fn lemma_measure_never_grows(tree: Tree, s: State, event: Event)
    requires
        inv(tree, s),
    ensures
        work_left(tree, next(tree, s, event)) <= work_left(tree, s),
        measure(tree, next(tree, s, event)) <= measure(tree, s),
{
    let t = next(tree, s, event);
    lemma_next_inv(tree, s, event);
    lemma_work_left(tree, s);
    lemma_work_left(tree, t);
    lemma_start_ups_next(tree, s, event);
}

/// What an event does to the steps that the running tasks have taken.
proof fn lemma_start_ups_next(tree: Tree, s: State, event: Event)
    requires
        inv(tree, s),
    ensures
        ({
            let t = next(tree, s, event);
            &&& t.active.len() == s.active.len() + 1 ==> start_ups(t.active) == start_ups(
                s.active,
            ) + 2
            &&& t.active == s.active ==> start_ups(t.active) == start_ups(s.active)
            &&& t.scanned.len() == s.scanned.len() + 1 ==> start_ups(t.active) + 2 == start_ups(
                s.active,
            )
            &&& t.sink.len() == s.sink.len() + 1 ==> start_ups(t.active) == start_ups(s.active)
        }),
{
    let t = next(tree, s, event);
    match event {
        Event::Dispatch => {
            match s.phase {
                Phase::Admitting { node } => {
                    lemma_carried_push(tree, s.active, fresh_task(node, s.next_shard));
                },
                _ => {},
            }
        },
        Event::Advance(k) => {
            if k < s.active.len() {
                let task = s.active[k as int];
                assert(task_ok(tree, s.active[k as int]));
                lemma_carried_remove(tree, s.active, k as int);
                if !task.scanned {
                    let out = scan(tree.item(task.node), tree.listing(task.node));
                    if out.errors.len() > 0 {
                        lemma_carried_update(
                            tree,
                            s.active,
                            k as int,
                            TaskView { scanned: true, errors: out.errors, sent: 0, ..task },
                        );
                    }
                } else if s.sink.len() < s.capacity {
                    if task.sent + 1 < task.errors.len() {
                        lemma_carried_update(
                            tree,
                            s.active,
                            k as int,
                            TaskView { sent: task.sent + 1, ..task },
                        );
                    }
                }
            }
        },
        _ => {},
    }
}

/// While the engine is not settled, with room for a task and for a record,
/// the fair event brings it nearer to the end.
pub proof fn lemma_fair_progress(tree: Tree, s: State)
    requires
        inv(tree, s),
        s.bound >= 1,
        s.capacity >= 1,
        !settled(s),
    ensures
        measure(tree, next(tree, s, fair(s))) < measure(tree, s),
{
    let t = next(tree, s, fair(s));
    lemma_next_inv(tree, s, fair(s));
    lemma_work_left(tree, s);
    lemma_work_left(tree, t);
    lemma_start_ups_next(tree, s, fair(s));
    if s.sink.len() == 0 && s.active.len() > 0 {
        assert(task_ok(tree, s.active[0]));
    }
}

/// Where 64 bits hold what the whole walk counts, the shard of a task holds
/// what the task adds to it.
pub proof fn lemma_scan_fits(tree: Tree, s: State, k: int)
    requires
        inv(tree, s),
        total(tree).counts.fits(),
        0 <= k < s.active.len(),
        !s.active[k].scanned,
    ensures
        s.shards[s.active[k].shard as int].plus(
            scan(tree.item(s.active[k].node), tree.listing(s.active[k].node)).counts,
        ).fits(),
{
    let task = s.active[k];
    assert(task_ok(tree, s.active[k]));
    lemma_pool_sum_member(s.shards, task.shard as int);
    lemma_carried_remove(tree, s.active, k);
    lemma_walk_unfold(tree, task.node);
}

/// The shards never sum to more than the whole walk counts.
pub proof fn lemma_pool_within_total(tree: Tree, s: State)
    requires
        inv(tree, s),
    ensures
        pool_sum(s.shards).file <= total(tree).counts.file,
        pool_sum(s.shards).sym <= total(tree).counts.sym,
        pool_sum(s.shards).dir <= total(tree).counts.dir,
{
}

/// Once the engine is settled, what it has counted, written out and
/// scanned is the whole walk.
pub proof fn lemma_settled_total(tree: Tree, s: State)
    requires
        inv(tree, s),
        settled(s),
    ensures
        pool_sum(s.shards) == total(tree).counts,
        s.log.to_multiset() == total(tree).errors,
        s.scanned.to_multiset() == total(tree).entered,
{
    assert(s.active =~= Seq::<TaskView>::empty());
    assert(s.queue =~= Seq::<usize>::empty());
    assert(held(s.phase) =~= Seq::<usize>::empty());
    assert(s.log + s.sink =~= s.log);
    assert(owed(tree, s) =~= Tally::zero());
    assert(banked(s).plus(Tally::zero()) =~= banked(s));
}

} // verus!
