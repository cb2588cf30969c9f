//! The ledger of work items: every directory that is ever queued is, at
//! every moment, in exactly one place, and is scanned exactly once.

use vstd::prelude::*;
use vstd::multiset::Multiset;
use vstd::seq_lib::lemma_multiset_commutative;
use crate::model::{
    fresh_task,
    held,
    init,
    inv,
    lemma_next_inv,
    next,
    settled,
    task_ok,
    trace,
    Event,
    Phase,
    State,
    TaskView,
};
use crate::rules::admits;
use crate::scan::scan;
use crate::tree::Tree;

verus! {

/// The directory of a task that has yet to scan it; nothing for a task that
/// has scanned.
pub open spec fn in_hand(task: TaskView) -> Multiset<usize> {
    if task.scanned {
        Multiset::empty()
    } else {
        Multiset::singleton(task.node)
    }
}

/// The directories that running tasks have yet to scan.
pub open spec fn in_hands(active: Seq<TaskView>) -> Multiset<usize>
    decreases active.len(),
{
    if active.len() == 0 {
        Multiset::empty()
    } else {
        in_hands(active.drop_last()).add(in_hand(active.last()))
    }
}

/// All that the scans of the directories at `ids` have queued.
pub open spec fn found(tree: Tree, ids: Seq<usize>) -> Multiset<usize>
    decreases ids.len(),
{
    if ids.len() == 0 {
        Multiset::empty()
    } else {
        found(tree, ids.drop_last()).add(tree.discovered(ids.last()).to_multiset())
    }
}

/// The directories that wait for their scan: in the queue, in the hand of
/// the dispatcher, or given to a task that has yet to scan.
pub open spec fn waiting(s: State) -> Multiset<usize> {
    s.queue.to_multiset().add(held(s.phase).to_multiset()).add(in_hands(s.active))
}

/// The directories that were ever queued: the roots, and what the scans so
/// far have found.
pub open spec fn issued(tree: Tree, s: State) -> Multiset<usize> {
    tree.roots@.to_multiset().add(found(tree, s.scanned))
}

/// Every directory that was ever queued waits in one place or has been
/// scanned once, as often as it was queued; and nothing else waits or has
/// been scanned.
pub open spec fn balanced(tree: Tree, s: State) -> bool {
    waiting(s).add(s.scanned.to_multiset()) == issued(tree, s)
}

/// One more task adds its directory.
proof fn lemma_in_hands_push(active: Seq<TaskView>, task: TaskView)
    ensures
        in_hands(active.push(task)) == in_hands(active).add(in_hand(task)),
{
    assert(active.push(task).drop_last() =~= active);
}

/// A task that ends takes its directory with it.
proof fn lemma_in_hands_remove(active: Seq<TaskView>, k: int)
    requires
        0 <= k < active.len(),
    ensures
        in_hands(active) == in_hands(active.remove(k)).add(in_hand(active[k])),
    decreases active.len(),
{
    if k == active.len() - 1 {
        assert(active.remove(k) =~= active.drop_last());
    } else {
        lemma_in_hands_remove(active.drop_last(), k);
        assert(active.remove(k).drop_last() =~= active.drop_last().remove(k));
        assert(active.remove(k).last() == active.last());
        assert(in_hands(active) =~= in_hands(active.remove(k)).add(in_hand(active[k])));
    }
}

/// A task that changes holds something else; the others hold the same.
proof fn lemma_in_hands_update(active: Seq<TaskView>, k: int, task: TaskView)
    requires
        0 <= k < active.len(),
    ensures
        in_hands(active.update(k, task)).add(in_hand(active[k])) == in_hands(active).add(
            in_hand(task),
        ),
{
    let after = active.update(k, task);
    lemma_in_hands_remove(active, k);
    lemma_in_hands_remove(after, k);
    assert(after.remove(k) =~= active.remove(k));
    assert(in_hands(after).add(in_hand(active[k])) =~= in_hands(active).add(in_hand(task)));
}

/// A run of one item is a bag of one item; a run of none is an empty bag.
proof fn lemma_small_bags(x: usize)
    ensures
        seq![x].to_multiset() == Multiset::singleton(x),
        Seq::<usize>::empty().to_multiset() == Multiset::<usize>::empty(),
{
    Seq::<usize>::empty().to_multiset_ensures();
    assert(Seq::<usize>::empty().to_multiset() =~= Multiset::<usize>::empty());
    assert(seq![x] =~= Seq::<usize>::empty().push(x));
    assert(seq![x].to_multiset() =~= Multiset::singleton(x));
}

/// The engine starts with the ledger balanced.
pub proof fn lemma_init_balanced(tree: Tree, bound: usize, capacity: usize)
    ensures
        balanced(tree, init(tree, bound, capacity)),
{
    let s = init(tree, bound, capacity);
    lemma_small_bags(0);
    assert(held(s.phase) =~= Seq::<usize>::empty());
    assert(waiting(s).add(s.scanned.to_multiset()) =~= issued(tree, s));
}

/// Taking the oldest item from the queue into the dispatcher's hand keeps
/// the ledger balanced.
proof fn lemma_take_head_balanced(tree: Tree, s: State)
    requires
        balanced(tree, s),
        s.queue.len() > 0,
        s.phase is Ready || s.phase is Rechecking,
    ensures
        balanced(
            tree,
            State { queue: s.queue.remove(0), phase: Phase::Admitting { node: s.queue[0] }, ..s },
        ),
{
    let node = s.queue[0];
    let t = State { queue: s.queue.remove(0), phase: Phase::Admitting { node }, ..s };
    lemma_small_bags(node);
    s.queue.to_multiset_ensures();
    assert(s.queue.contains(node));
    assert(held(s.phase) =~= Seq::<usize>::empty());
    assert(waiting(t) =~= waiting(s));
}

/// Every event keeps the ledger balanced.
pub proof fn lemma_next_balanced(tree: Tree, s: State, event: Event)
    requires
        inv(tree, s),
        balanced(tree, s),
    ensures
        balanced(tree, next(tree, s, event)),
{
    let t = next(tree, s, event);
    match event {
        Event::Dispatch => {
            match s.phase {
                Phase::Ready => {
                    if s.queue.len() > 0 {
                        lemma_take_head_balanced(tree, s);
                    } else {
                        assert(waiting(t) =~= waiting(s));
                    }
                },
                Phase::Rechecking => {
                    if s.queue.len() > 0 {
                        lemma_take_head_balanced(tree, s);
                    } else {
                        assert(waiting(t) =~= waiting(s));
                    }
                },
                Phase::Admitting { node } => {
                    if admits(s.active.len(), s.bound as nat) {
                        lemma_small_bags(node);
                        lemma_in_hands_push(s.active, fresh_task(node, s.next_shard));
                        assert(held(t.phase) =~= Seq::<usize>::empty());
                        assert(waiting(t) =~= waiting(s));
                    }
                },
                Phase::Probing => {
                    assert(waiting(t) =~= waiting(s));
                },
                Phase::Done => {},
            }
        },
        Event::Advance(k) => {
            if k < s.active.len() {
                let task = s.active[k as int];
                assert(task_ok(tree, s.active[k as int]));
                lemma_in_hands_remove(s.active, k as int);
                if !task.scanned {
                    let out = scan(tree.item(task.node), tree.listing(task.node));
                    let fresh = tree.discovered(task.node);
                    let left = TaskView { scanned: true, errors: out.errors, sent: 0, ..task };
                    lemma_multiset_commutative(s.queue, fresh);
                    s.scanned.to_multiset_ensures();
                    assert(t.scanned.drop_last() =~= s.scanned);
                    assert(t.scanned.last() == task.node);
                    assert(found(tree, t.scanned) == found(tree, s.scanned).add(
                        fresh.to_multiset(),
                    ));
                    assert(t.scanned.to_multiset() =~= s.scanned.to_multiset().add(
                        Multiset::singleton(task.node),
                    ));
                    if out.errors.len() > 0 {
                        lemma_in_hands_update(s.active, k as int, left);
                        assert(in_hand(left) =~= Multiset::<usize>::empty());
                        assert(in_hands(t.active).add(in_hand(task)) =~= in_hands(s.active));
                    }
                    assert(in_hands(s.active) =~= in_hands(t.active).add(
                        Multiset::singleton(task.node),
                    ));
                    assert(t.queue.to_multiset() =~= s.queue.to_multiset().add(
                        fresh.to_multiset(),
                    ));
                    assert(held(t.phase) == held(s.phase));
                    assert(waiting(t).add(Multiset::singleton(task.node)) =~= waiting(s).add(
                        fresh.to_multiset(),
                    ));
                    let one = Multiset::singleton(task.node);
                    let more = fresh.to_multiset();
                    let done = s.scanned.to_multiset();
                    assert(waiting(t).add(t.scanned.to_multiset()) =~= waiting(t).add(one).add(
                        done,
                    ));
                    assert(waiting(s).add(more).add(done) =~= waiting(s).add(done).add(more));
                    assert(issued(tree, s).add(more) =~= issued(tree, t));
                } else if s.sink.len() < s.capacity {
                    let left = TaskView { sent: task.sent + 1, ..task };
                    assert(in_hand(task) =~= Multiset::<usize>::empty());
                    if task.sent + 1 < task.errors.len() {
                        lemma_in_hands_update(s.active, k as int, left);
                        assert(in_hand(left) =~= Multiset::<usize>::empty());
                        assert(in_hands(t.active).add(in_hand(task)) =~= in_hands(s.active));
                    }
                    assert(in_hands(t.active) =~= in_hands(s.active));
                    assert(waiting(t) =~= waiting(s));
                }
            }
        },
        Event::Drain => {
            assert(waiting(t) =~= waiting(s));
        },
        Event::Delay => {},
    }
}

/// Every run of events keeps the ledger balanced.
pub proof fn lemma_trace_balanced(tree: Tree, s: State, events: Seq<Event>)
    requires
        inv(tree, s),
        balanced(tree, s),
    ensures
        inv(tree, trace(tree, s, events)),
        balanced(tree, trace(tree, s, events)),
    decreases events.len(),
{
    if events.len() > 0 {
        let before = trace(tree, s, events.drop_last());
        lemma_trace_balanced(tree, s, events.drop_last());
        lemma_next_inv(tree, before, events.last());
        lemma_next_balanced(tree, before, events.last());
    }
}

/// Once the engine is settled nothing waits: what has been scanned is what
/// was ever queued, each directory as often as it was queued.
pub proof fn lemma_settled_balanced(tree: Tree, s: State)
    requires
        inv(tree, s),
        balanced(tree, s),
        settled(s),
    ensures
        s.scanned.to_multiset() == issued(tree, s),
{
    lemma_small_bags(0);
    assert(s.active =~= Seq::<TaskView>::empty());
    assert(s.queue =~= Seq::<usize>::empty());
    assert(held(s.phase) =~= Seq::<usize>::empty());
    assert(waiting(s) =~= Multiset::<usize>::empty());
    assert(s.scanned.to_multiset() =~= issued(tree, s));
}

} // verus!
