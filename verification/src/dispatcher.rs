//! The dispatcher over its work queue: it takes queued directories, names
//! the shard for each new scan task, and sees when no work can come any more.

use vstd::prelude::*;
use tokio::sync::mpsc::error::SendError;
use tokio::sync::mpsc::error::TryRecvError;
use tokio::sync::mpsc::unbounded_channel;
use tokio::sync::mpsc::UnboundedReceiver;
use tokio::sync::mpsc::UnboundedSender;
use crate::limiter::TaskSpawner;
use crate::rules::{
    after_count,
    after_dequeue,
    after_recheck,
    next_shard,
    recheck_verdict,
    shard_after,
    turn_verdict,
    Verdict,
    POLL_INTERVAL_MICROS,
};
use crate::scan::WorkItem;
use crate::stats::NUM_STATS;

verus! {

/// `tokio::sync::mpsc::UnboundedReceiver`: the receiving end of a channel
/// without a bound. Nothing is known of what is inside.
#[verifier::external_type_specification]
#[verifier::external_body]
#[verifier::reject_recursive_types(T)]
pub struct ExUnboundedReceiver<T>(tokio::sync::mpsc::UnboundedReceiver<T>);

/// `tokio::sync::mpsc::UnboundedSender`: a sending end of a channel without
/// a bound. Nothing is known of what is inside.
#[verifier::external_type_specification]
#[verifier::external_body]
#[verifier::reject_recursive_types(T)]
pub struct ExUnboundedSender<T>(tokio::sync::mpsc::UnboundedSender<T>);

/// `tokio::sync::mpsc::error::SendError`: the value that could not be sent.
/// Nothing is known of what is inside.
#[verifier::external_type_specification]
#[verifier::external_body]
#[verifier::reject_recursive_types(T)]
pub struct ExSendError<T>(tokio::sync::mpsc::error::SendError<T>);

/// `tokio::sync::mpsc::error::TryRecvError`: why nothing was received.
/// Nothing is known of what is inside.
#[verifier::external_type_specification]
#[verifier::external_body]
pub struct ExTryRecvError(tokio::sync::mpsc::error::TryRecvError);

/// `unbounded_channel` creates a channel without a bound, and gives its two
/// ends. Nothing is claimed of the result.
pub assume_specification<T>[ tokio::sync::mpsc::unbounded_channel::<T> ]() -> (
    UnboundedSender<T>,
    UnboundedReceiver<T>,
);

/// `UnboundedReceiver::try_recv` gives the oldest value of the channel; where
/// the channel is empty it says so at once, and tells whether senders are
/// left. Nothing is claimed of the result.
pub assume_specification<T>[ tokio::sync::mpsc::UnboundedReceiver::<T>::try_recv ](
    rx: &mut UnboundedReceiver<T>,
) -> Result<T, TryRecvError>;

/// `UnboundedReceiver::sender_strong_count` gives the number of sender
/// handles alive at the moment of the call. Nothing is claimed of the result.
pub assume_specification<T>[ tokio::sync::mpsc::UnboundedReceiver::<T>::sender_strong_count ](
    rx: &UnboundedReceiver<T>,
) -> usize;

/// `UnboundedReceiver::close` closes the receiving end: no value can be sent
/// any more. Nothing is claimed of the receiver afterwards.
pub assume_specification<T>[ tokio::sync::mpsc::UnboundedReceiver::<T>::close ](
    rx: &mut UnboundedReceiver<T>,
);

/// `UnboundedSender::send` queues a value without waiting, or hands it back
/// where the receiving end is closed. Nothing is claimed of the result.
pub assume_specification<T>[ tokio::sync::mpsc::UnboundedSender::<T>::send ](
    tx: &UnboundedSender<T>,
    message: T,
) -> Result<(), SendError<T>>;

/// `Clone::clone` of an `UnboundedSender`: one more handle on the same
/// channel. Nothing is claimed of the result.
pub assume_specification<T>[ <tokio::sync::mpsc::UnboundedSender<T> as Clone>::clone ](
    tx: &UnboundedSender<T>,
) -> UnboundedSender<T>;

/// What the caller is to do on a verdict, the next task writing to the
/// shard at `shard`.
pub open spec fn action_on(verdict: Verdict<WorkItem>, shard: usize) -> Action {
    match verdict {
        Verdict::Spawn(item) => Action::Spawn { item, shard: (shard % NUM_STATS) as usize },
        Verdict::Finish => Action::Finish,
        _ => Action::Sleep { micros: POLL_INTERVAL_MICROS },
    }
}

/// What a look at the queue found, from what the channel answered: the
/// item received, or nothing where the channel had none to give, whether
/// senders are left or not.
pub fn received(answer: Result<WorkItem, TryRecvError>) -> (got: Option<WorkItem>)
    ensures
        got == match answer {
            Ok(item) => Some(item),
            Err(_) => None::<WorkItem>,
        },
{
    match answer {
        Ok(item) => Some(item),
        Err(_) => None,
    }
}

/// Whether the queue took an item, from what the channel answered.
pub fn accepted(answer: Result<(), SendError<WorkItem>>) -> (ok: bool)
    ensures
        ok == answer is Ok,
{
    match answer {
        Ok(_) => true,
        Err(_) => false,
    }
}

/// What the caller of the dispatcher is to do next.
#[derive(Debug, PartialEq, Eq)]
pub enum Action {
    /// Start a scan task for `item`, through the limiter, writing to the
    /// shard at `shard`; then poll again.
    Spawn { item: WorkItem, shard: usize },
    /// Pause for so many microseconds; then poll again.
    Sleep { micros: u64 },
    /// The walk is over; queue and limiter are closed.
    Finish,
}

/// The dispatcher: the receiving end of the work queue, one producer handle
/// of its own by which the live producers are counted, and the limiter of
/// the pool.
pub struct Dispatcher {
    queue: UnboundedReceiver<WorkItem>,
    handle: UnboundedSender<WorkItem>,
    limiter: TaskSpawner,
    shard: usize,
    done: bool,
}

impl Dispatcher {
    /// The shard that the next task will write to.
    pub closed spec fn shard(&self) -> usize {
        self.shard
    }

    /// Queue and limiter are closed.
    pub closed spec fn done(&self) -> bool {
        self.done
    }

    /// The most tasks that the pool runs at once.
    pub closed spec fn limit(&self) -> usize {
        self.limiter.limit()
    }

    /// A dispatcher with an empty queue and a pool of at most `lim` tasks.
    pub fn new(lim: usize) -> (dispatcher: Dispatcher)
        ensures
            dispatcher.shard() == 0,
            !dispatcher.done(),
            dispatcher.limit() == lim,
    {
        let (handle, queue) = unbounded_channel();
        Dispatcher { queue, handle, limiter: TaskSpawner::new(lim), shard: 0, done: false }
    }

    /// One more producer handle on the work queue: for each scan task, and
    /// for whoever queues the roots. The walk cannot end while one is alive.
    pub fn producer(&self) -> UnboundedSender<WorkItem> {
        self.handle.clone()
    }

    /// The limiter through which scan tasks are started.
    pub fn limiter(&self) -> (limiter: &TaskSpawner)
        ensures
            limiter.limit() == self.limit(),
    {
        &self.limiter
    }

    /// Whether the walk is over.
    pub fn is_done(&self) -> (done: bool)
        ensures
            done == self.done(),
    {
        self.done
    }

    /// Queues a directory. Gives `false` where the queue is closed.
    pub fn submit(&self, item: WorkItem) -> bool {
        accepted(self.handle.send(item))
    }

    /// Looks at the queue without waiting.
    fn look(&mut self) -> (got: Option<WorkItem>)
        ensures
            final(self).shard() == old(self).shard(),
            final(self).done() == old(self).done(),
            final(self).limit() == old(self).limit(),
    {
        received(self.queue.try_recv())
    }

    /// Hands `item` out for a new scan task and moves on to the next shard.
    fn hand_out(&mut self, item: WorkItem) -> (action: Action)
        ensures
            action == (Action::Spawn { item, shard: old(self).shard() % NUM_STATS }),
            final(self).shard() == shard_after(old(self).shard() as nat),
            final(self).done() == old(self).done(),
            final(self).limit() == old(self).limit(),
    {
        let shard: usize = self.shard % NUM_STATS;
        self.shard = next_shard(self.shard);
        Action::Spawn { item, shard }
    }

    /// One turn of the dispatcher. An item found in the queue is handed out.
    /// With the queue empty, the dispatcher counts the live producers: where
    /// others are alive it asks for a pause; where it is alone it looks once
    /// more, for what a task may have queued just before it ended, and with
    /// the queue still empty it closes queue and limiter and ends the walk.
    pub fn poll(&mut self) -> (action: Action)
        ensures
            final(self).limit() == old(self).limit(),
            old(self).done() ==> action is Finish,
            !old(self).done() ==> exists|
                first: Option<WorkItem>,
                producers: nat,
                second: Option<WorkItem>,
            |
                action == action_on(
                    #[trigger] turn_verdict(first, producers, second),
                    old(self).shard(),
                ),
            match action {
                Action::Spawn { shard, .. } => {
                    &&& shard == old(self).shard() % NUM_STATS
                    &&& final(self).shard() == shard_after(old(self).shard() as nat)
                    &&& !final(self).done()
                },
                Action::Sleep { micros } => {
                    &&& micros == POLL_INTERVAL_MICROS
                    &&& final(self).shard() == old(self).shard()
                    &&& !final(self).done()
                },
                Action::Finish => {
                    &&& final(self).shard() == old(self).shard()
                    &&& final(self).done()
                },
            },
    {
        if self.done {
            return Action::Finish;
        }
        let first = self.look();
        match after_dequeue(first) {
            Verdict::Spawn(item) => {
                assert(turn_verdict(first, 0, None) == Verdict::Spawn(item));
                self.hand_out(item)
            },
            _ => {
                let producers = self.queue.sender_strong_count();
                match after_count::<WorkItem>(producers) {
                    Verdict::Recheck => {
                        let second = self.look();
                        assert(turn_verdict(first, producers as nat, second) == recheck_verdict(
                            second,
                        ));
                        match after_recheck(second) {
                            Verdict::Spawn(item) => self.hand_out(item),
                            _ => {
                                self.queue.close();
                                self.limiter.close();
                                self.done = true;
                                Action::Finish
                            },
                        }
                    },
                    _ => {
                        assert(turn_verdict(first, producers as nat, None) == Verdict::<
                            WorkItem,
                        >::Backoff);
                        Action::Sleep { micros: POLL_INTERVAL_MICROS }
                    },
                }
            },
        }
    }
}

} // verus!
