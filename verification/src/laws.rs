//! What holds of every walk of every tree, whatever the scheduler does.

use vstd::prelude::*;
use vstd::multiset::Multiset;
use crate::ledger::{
    balanced,
    issued,
    lemma_init_balanced,
    lemma_settled_balanced,
    lemma_trace_balanced,
};
use crate::model::{
    counted,
    fair,
    held,
    init,
    inv,
    lemma_fair_progress,
    lemma_init_inv,
    lemma_measure_never_grows,
    lemma_next_inv,
    lemma_no_records,
    lemma_settled_total,
    lemma_trace_inv,
    lemma_work_left,
    measure,
    next,
    settled,
    sought,
    task_ok,
    trace,
    workable,
    Event,
    State,
    TaskView,
};
use crate::scan::{kind_of, scan, ChildView, EntryKind, ErrorView, Meta, WorkItemView};
use crate::stats::{pool_sum, Counts};
use crate::tree::{lemma_discovered_members, lemma_select_matches_scan, Tree};
use crate::walk::{
    lemma_walk_all_remove,
    lemma_walk_unfold,
    local,
    price,
    total,
    walk,
    walk_all,
    Tally,
};

verus! {

/// The state that the engine is in after `events`, started on `tree` with
/// at most `bound` tasks at once and an error queue of at most `capacity`
/// records.
pub open spec fn reached(tree: Tree, bound: usize, capacity: usize, events: Seq<Event>) -> State {
    trace(tree, init(tree, bound, capacity), events)
}

/// The directory at `x` is queued, held by the dispatcher, given to a
/// running task, or scanned already.
pub open spec fn touched(s: State, x: usize) -> bool {
    ||| s.queue.contains(x)
    ||| held(s.phase).contains(x)
    ||| exists|k: int| 0 <= k < s.active.len() && (#[trigger] s.active[k]).node == x
    ||| s.scanned.contains(x)
}

/// The invariant holds of every state that the engine reaches.
pub proof fn law_invariant(tree: Tree, bound: usize, capacity: usize, events: Seq<Event>)
    requires
        tree.wf(),
    ensures
        inv(tree, reached(tree, bound, capacity, events)),
        reached(tree, bound, capacity, events).bound == bound,
        reached(tree, bound, capacity, events).capacity == capacity,
{
    lemma_init_inv(tree, bound, capacity);
    lemma_trace_inv(tree, init(tree, bound, capacity), events);
    lemma_trace_limits(tree, init(tree, bound, capacity), events);
}

/// No event changes the bound of the pool or the capacity of the error
/// queue.
proof fn lemma_trace_limits(tree: Tree, s: State, events: Seq<Event>)
    ensures
        trace(tree, s, events).bound == s.bound,
        trace(tree, s, events).capacity == s.capacity,
    decreases events.len(),
{
    if events.len() > 0 {
        lemma_trace_limits(tree, s, events.drop_last());
    }
}

/// Once the walk is over and every error is written out, under whatever
/// schedule, the shards sum to the counters of the sequential walk, the
/// errors written out are those of the sequential walk, each as often, and
/// the directories scanned are those that the sequential walk scans, each
/// as often.
pub proof fn law_counts_match_sequential_walk(
    tree: Tree,
    bound: usize,
    capacity: usize,
    events: Seq<Event>,
)
    requires
        tree.wf(),
        settled(reached(tree, bound, capacity, events)),
    ensures
        pool_sum(reached(tree, bound, capacity, events).shards) == total(tree).counts,
        reached(tree, bound, capacity, events).log.to_multiset() == total(tree).errors,
        reached(tree, bound, capacity, events).scanned.to_multiset() == total(tree).entered,
{
    law_invariant(tree, bound, capacity, events);
    lemma_settled_total(tree, reached(tree, bound, capacity, events));
}

/// Two walks of one tree, under whatever schedules, bounds and capacities,
/// end with the same counters and the same errors.
pub proof fn law_walks_agree(
    tree: Tree,
    bound_a: usize,
    capacity_a: usize,
    events_a: Seq<Event>,
    bound_b: usize,
    capacity_b: usize,
    events_b: Seq<Event>,
)
    requires
        tree.wf(),
        settled(reached(tree, bound_a, capacity_a, events_a)),
        settled(reached(tree, bound_b, capacity_b, events_b)),
    ensures
        pool_sum(reached(tree, bound_a, capacity_a, events_a).shards) == pool_sum(
            reached(tree, bound_b, capacity_b, events_b).shards,
        ),
        reached(tree, bound_a, capacity_a, events_a).log.to_multiset() == reached(
            tree,
            bound_b,
            capacity_b,
            events_b,
        ).log.to_multiset(),
{
    law_counts_match_sequential_walk(tree, bound_a, capacity_a, events_a);
    law_counts_match_sequential_walk(tree, bound_b, capacity_b, events_b);
}

/// A subdirectory on another device than the directory that lists it is
/// counted as a directory, and is neither an error nor new work.
pub proof fn law_foreign_directory_counted_not_entered(
    dir: WorkItemView,
    path: Seq<u8>,
    meta: Meta,
)
    requires
        kind_of(meta) == EntryKind::Dir,
        meta.device != dir.device,
    ensures
        (ChildView::Found { path, meta }).counts() == (Counts { file: 0, sym: 0, dir: 1 }),
        (ChildView::Found { path, meta }).work(dir) is None,
        (ChildView::Found { path, meta }).error(dir) is None,
{
}

/// Whatever is ever queued, held, given to a task or scanned is a root, or
/// a directory that the scan of another directory found in its listing and
/// on its own device. Nothing else is ever entered.
pub proof fn law_work_is_root_or_discovered(
    tree: Tree,
    bound: usize,
    capacity: usize,
    events: Seq<Event>,
    x: usize,
)
    requires
        tree.wf(),
        touched(reached(tree, bound, capacity, events), x),
    ensures
        x < tree.nodes.len(),
        tree.roots@.contains(x) || exists|d: usize|
            d < x && #[trigger] tree.discovered(d).contains(x)
                && tree.nodes[d as int].children@.contains(x) && tree.nodes[d as int].denied
                is None && tree.item(x).device == tree.item(d).device,
{
    law_invariant(tree, bound, capacity, events);
    let s = reached(tree, bound, capacity, events);
    if s.queue.contains(x) {
        let k = choose|k: int| 0 <= k < s.queue.len() && s.queue[k] == x;
        assert(workable(tree, s.queue[k]));
    } else if held(s.phase).contains(x) {
        assert(held(s.phase)[0] == x);
    } else if s.scanned.contains(x) {
        let k = choose|k: int| 0 <= k < s.scanned.len() && s.scanned[k] == x;
        assert(workable(tree, s.scanned[k]));
    } else {
        let k = choose|k: int| 0 <= k < s.active.len() && (#[trigger] s.active[k]).node == x;
        assert(task_ok(tree, s.active[k]));
    }
    assert(sought(tree, x));
    if !tree.roots@.contains(x) {
        let d = choose|d: usize| d < tree.nodes.len() && #[trigger] tree.discovered(d).contains(x);
        lemma_discovered_members(tree, d, x);
    }
}

/// What the scan of a directory of the tree hands back as new work are the
/// items of the positions that the engine queues for it, in the same order.
pub proof fn law_queued_is_what_the_scan_found(tree: Tree, d: usize)
    requires
        d < tree.nodes.len(),
    ensures
        scan(tree.item(d), tree.listing(d)).discovered == Seq::new(
            tree.discovered(d).len(),
            |j: int| tree.item(tree.discovered(d)[j]),
        ),
{
    lemma_select_matches_scan(tree, tree.item(d), tree.children(d));
    if tree.nodes[d as int].denied is Some {
        assert(scan(tree.item(d), tree.listing(d)).discovered =~= Seq::new(
            tree.discovered(d).len(),
            |j: int| tree.item(tree.discovered(d)[j]),
        ));
    }
}

/// Every directory that is ever queued is scanned exactly once: at every
/// moment each of them waits in one place (in the queue, in the hand of the
/// dispatcher, or with a task that has yet to scan it) or has been scanned,
/// as often as it was queued, and once the engine is settled none waits.
pub proof fn law_every_item_is_scanned_once(
    tree: Tree,
    bound: usize,
    capacity: usize,
    events: Seq<Event>,
)
    requires
        tree.wf(),
    ensures
        balanced(tree, reached(tree, bound, capacity, events)),
        settled(reached(tree, bound, capacity, events)) ==> reached(
            tree,
            bound,
            capacity,
            events,
        ).scanned.to_multiset() == issued(tree, reached(tree, bound, capacity, events)),
{
    lemma_init_inv(tree, bound, capacity);
    lemma_init_balanced(tree, bound, capacity);
    lemma_trace_balanced(tree, init(tree, bound, capacity), events);
    if settled(reached(tree, bound, capacity, events)) {
        lemma_settled_balanced(tree, reached(tree, bound, capacity, events));
    }
}

/// At every moment the shards sum to what the scans completed so far have
/// counted, and to nothing else: no entry is counted but by the scan of the
/// directory that lists it.
pub proof fn law_counts_are_of_the_scans(
    tree: Tree,
    bound: usize,
    capacity: usize,
    events: Seq<Event>,
)
    requires
        tree.wf(),
    ensures
        pool_sum(reached(tree, bound, capacity, events).shards) == counted(
            tree,
            reached(tree, bound, capacity, events).scanned,
        ),
{
    law_invariant(tree, bound, capacity, events);
}

/// At no moment are more tasks active than the bound allows, and at no
/// moment does the error queue hold more records than its capacity.
pub proof fn law_within_limits(tree: Tree, bound: usize, capacity: usize, events: Seq<Event>)
    requires
        tree.wf(),
    ensures
        reached(tree, bound, capacity, events).active.len() <= bound,
        reached(tree, bound, capacity, events).sink.len() <= capacity,
{
    law_invariant(tree, bound, capacity, events);
}

/// The dispatcher is done only with the queue empty and no task running,
/// and after that nothing is queued and no task starts; once every error is
/// written out as well, no event changes the state.
pub proof fn law_done_is_quiescent_and_final(
    tree: Tree,
    bound: usize,
    capacity: usize,
    events: Seq<Event>,
    event: Event,
)
    requires
        tree.wf(),
        reached(tree, bound, capacity, events).phase is Done,
    ensures
        reached(tree, bound, capacity, events).queue.len() == 0,
        reached(tree, bound, capacity, events).active.len() == 0,
        next(tree, reached(tree, bound, capacity, events), event).phase is Done,
        settled(reached(tree, bound, capacity, events)) ==> next(
            tree,
            reached(tree, bound, capacity, events),
            event,
        ) == reached(tree, bound, capacity, events),
{
    law_invariant(tree, bound, capacity, events);
}

/// No counter of any shard ever decreases.
pub proof fn law_shards_never_decrease(
    tree: Tree,
    bound: usize,
    capacity: usize,
    events: Seq<Event>,
    event: Event,
    i: int,
)
    requires
        tree.wf(),
        0 <= i < reached(tree, bound, capacity, events).shards.len(),
    ensures
        next(tree, reached(tree, bound, capacity, events), event).shards.len() == reached(
            tree,
            bound,
            capacity,
            events,
        ).shards.len(),
        reached(tree, bound, capacity, events).shards[i].file <= next(
            tree,
            reached(tree, bound, capacity, events),
            event,
        ).shards[i].file,
        reached(tree, bound, capacity, events).shards[i].sym <= next(
            tree,
            reached(tree, bound, capacity, events),
            event,
        ).shards[i].sym,
        reached(tree, bound, capacity, events).shards[i].dir <= next(
            tree,
            reached(tree, bound, capacity, events),
            event,
        ).shards[i].dir,
{
    law_invariant(tree, bound, capacity, events);
}

/// No record is dropped, none is made up, and none overtakes another: in
/// one step, the records written out followed by those in the error queue
/// stay as they are, or get at their end the next record that some task has
/// yet to hand over.
pub proof fn law_records_only_move(
    tree: Tree,
    bound: usize,
    capacity: usize,
    events: Seq<Event>,
    event: Event,
)
    requires
        tree.wf(),
    ensures
        ({
            let s = reached(tree, bound, capacity, events);
            let t = next(tree, s, event);
            ||| t.log + t.sink == s.log + s.sink
            ||| exists|k: int|
                0 <= k < s.active.len() && (#[trigger] s.active[k]).sent < s.active[k].errors.len()
                    && t.log + t.sink == (s.log + s.sink).push(
                    s.active[k].errors[s.active[k].sent as int],
                )
        }),
{
    law_invariant(tree, bound, capacity, events);
    let s = reached(tree, bound, capacity, events);
    let t = next(tree, s, event);
    match event {
        Event::Drain => {
            if s.sink.len() > 0 {
                assert(t.log + t.sink =~= s.log + s.sink);
            }
        },
        Event::Advance(k) => {
            if k < s.active.len() {
                let task = s.active[k as int];
                assert(task_ok(tree, s.active[k as int]));
                if task.scanned && s.sink.len() < s.capacity {
                    assert(t.log + t.sink =~= (s.log + s.sink).push(task.errors[task.sent as int]));
                }
            }
        },
        _ => {},
    }
}

/// A task hands over the errors of its scan in the order of the listing:
/// the errors that a running task holds after its scan are those of the
/// scan of its directory, it has handed over the first so many of them and
/// no other, and its next step hands over the one after those, or nothing
/// while the error queue is full.
pub proof fn law_task_reports_in_listing_order(
    tree: Tree,
    bound: usize,
    capacity: usize,
    events: Seq<Event>,
    k: usize,
)
    requires
        tree.wf(),
        k < reached(tree, bound, capacity, events).active.len(),
        reached(tree, bound, capacity, events).active[k as int].scanned,
    ensures
        ({
            let s = reached(tree, bound, capacity, events);
            let task = s.active[k as int];
            let t = next(tree, s, Event::Advance(k));
            &&& task.errors == scan(tree.item(task.node), tree.listing(task.node)).errors
            &&& task.sent < task.errors.len()
            &&& s.sink.len() < capacity ==> t.sink == s.sink.push(task.errors[task.sent as int])
            &&& s.sink.len() < capacity && task.sent + 1 < task.errors.len() ==> t.active[k as int]
                == (TaskView { sent: task.sent + 1, ..task })
            &&& s.sink.len() >= capacity ==> t == s
        }),
{
    law_invariant(tree, bound, capacity, events);
    let s = reached(tree, bound, capacity, events);
    assert(task_ok(tree, s.active[k as int]));
}

/// Number of events of a run that were the fair event of the state in which
/// they happened.
pub open spec fn fair_steps(tree: Tree, s: State, events: Seq<Event>) -> nat
    decreases events.len(),
{
    if events.len() == 0 {
        0
    } else {
        fair_steps(tree, s, events.drop_last()) + if events.last() == fair(
            trace(tree, s, events.drop_last()),
        ) {
            1nat
        } else {
            0nat
        }
    }
}

/// With room for a task and for a record, a run of events leaves the engine
/// settled, or nearer to the end by one for each fair event in it; no other
/// event, a delay or any step out of turn, takes it further away.
pub proof fn lemma_fair_steps(tree: Tree, s: State, events: Seq<Event>)
    requires
        inv(tree, s),
        s.bound >= 1,
        s.capacity >= 1,
    ensures
        inv(tree, trace(tree, s, events)),
        trace(tree, s, events).bound == s.bound,
        trace(tree, s, events).capacity == s.capacity,
        settled(trace(tree, s, events)) || measure(tree, trace(tree, s, events)) + fair_steps(
            tree,
            s,
            events,
        ) <= measure(tree, s),
    decreases events.len(),
{
    if events.len() > 0 {
        let before = trace(tree, s, events.drop_last());
        lemma_fair_steps(tree, s, events.drop_last());
        lemma_next_inv(tree, before, events.last());
        if !settled(before) {
            lemma_measure_never_grows(tree, before, events.last());
            if events.last() == fair(before) {
                lemma_fair_progress(tree, before);
            }
        }
    }
}

/// No livelock: with room for a task and for a record, whatever delays and
/// steps of whatever party a schedule holds, the walk is over and every
/// error is written out as soon as the schedule has granted as many fair
/// events as the measure of the first state counts: twelve for every
/// directory that the walk scans, eight for every error, and three more.
pub proof fn law_fair_schedule_ends(tree: Tree, bound: usize, capacity: usize, events: Seq<Event>)
    requires
        tree.wf(),
        bound >= 1,
        capacity >= 1,
        fair_steps(tree, init(tree, bound, capacity), events) >= 12 * total(tree).entered.len() + 8
            * total(tree).errors.len() + 3,
    ensures
        settled(reached(tree, bound, capacity, events)),
{
    let s = init(tree, bound, capacity);
    lemma_init_inv(tree, bound, capacity);
    lemma_fair_steps(tree, s, events);
    lemma_work_left(tree, s);
    lemma_work_left(tree, reached(tree, bound, capacity, events));
    assert(held(s.phase) =~= Seq::<usize>::empty());
    assert(measure(tree, s) <= 4 * price(total(tree)) + 3);
    let t = reached(tree, bound, capacity, events);
    if !settled(t) {
        assert(measure(tree, t) <= 0);
        assert(t.active.len() == 0);
    }
}

/// While the engine is not settled, with room for a task and for a record,
/// the fair event brings it nearer to the end, and the end is never further
/// away than the measure, which is not negative.
pub proof fn law_fair_event_progresses(
    tree: Tree,
    bound: usize,
    capacity: usize,
    events: Seq<Event>,
)
    requires
        tree.wf(),
        bound >= 1,
        capacity >= 1,
        !settled(reached(tree, bound, capacity, events)),
    ensures
        0 <= measure(
            tree,
            next(
                tree,
                reached(tree, bound, capacity, events),
                fair(reached(tree, bound, capacity, events)),
            ),
        ) < measure(tree, reached(tree, bound, capacity, events)),
{
    law_invariant(tree, bound, capacity, events);
    let s = reached(tree, bound, capacity, events);
    lemma_fair_progress(tree, s);
    lemma_next_inv(tree, s, fair(s));
    lemma_work_left(tree, next(tree, s, fair(s)));
}

/// No event, a delay or a step out of turn, takes the engine further from
/// the end.
pub proof fn law_no_event_undoes_progress(
    tree: Tree,
    bound: usize,
    capacity: usize,
    events: Seq<Event>,
    event: Event,
)
    requires
        tree.wf(),
    ensures
        measure(tree, next(tree, reached(tree, bound, capacity, events), event)) <= measure(
            tree,
            reached(tree, bound, capacity, events),
        ),
{
    law_invariant(tree, bound, capacity, events);
    lemma_measure_never_grows(tree, reached(tree, bound, capacity, events), event);
}

/// A directory that cannot be listed is one error, laid to that directory,
/// and nothing counted.
pub proof fn law_denied_directory_is_one_error(tree: Tree, d: usize)
    requires
        tree.wf(),
        d < tree.nodes.len(),
        tree.nodes[d as int].denied is Some,
    ensures
        walk(tree, d) == (Tally {
            counts: Counts::zero(),
            errors: Multiset::singleton(
                ErrorView { path: tree.item(d).path, cause: tree.nodes[d as int].denied->Some_0@ },
            ),
            entered: Multiset::singleton(d),
        }),
{
    lemma_walk_unfold(tree, d);
    let record = ErrorView {
        path: tree.item(d).path,
        cause: tree.nodes[d as int].denied->Some_0@,
    };
    assert(seq![record] =~= Seq::<ErrorView>::empty().push(record));
    lemma_no_records(Seq::<ErrorView>::empty());
    Seq::<ErrorView>::empty().to_multiset_ensures();
    assert(seq![record].to_multiset() =~= Multiset::singleton(record));
    assert(tree.discovered(d) =~= Seq::<usize>::empty());
    assert(walk(tree, d) =~= (Tally {
        counts: Counts::zero(),
        errors: Multiset::singleton(record),
        entered: Multiset::singleton(d),
    }));
}

/// What one subdirectory yields does not touch what its siblings yield: the
/// walk of a directory is its own scan, the walks of the other
/// subdirectories that it discovers, and the walk of the one.
pub proof fn law_siblings_are_independent(tree: Tree, d: usize, k: int)
    requires
        tree.wf(),
        d < tree.nodes.len(),
        0 <= k < tree.discovered(d).len(),
    ensures
        walk(tree, d) == local(tree, d).plus(walk_all(tree, tree.discovered(d).remove(k))).plus(
            walk(tree, tree.discovered(d)[k]),
        ),
{
    let ids = tree.discovered(d);
    assert(ids.contains(ids[k]));
    lemma_discovered_members(tree, d, ids[k]);
    lemma_walk_unfold(tree, d);
    lemma_walk_all_remove(tree, ids, k);
    assert(walk(tree, d) =~= local(tree, d).plus(walk_all(tree, ids.remove(k))).plus(
        walk(tree, ids[k]),
    ));
}

} // verus!
