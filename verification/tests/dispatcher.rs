use inode_cache::dispatcher::{accepted, received, Action, Dispatcher};
use inode_cache::limiter::Admission;
use inode_cache::scan::WorkItem;

fn item(path: &str) -> WorkItem {
    WorkItem { path: path.as_bytes().to_vec(), device: 1 }
}

#[test]
fn empty_walk_ends_at_once() {
    let mut dispatcher = Dispatcher::new(500);
    assert!(!dispatcher.is_done());
    assert_eq!(dispatcher.poll(), Action::Finish);
    assert!(dispatcher.is_done());
    assert_eq!(dispatcher.poll(), Action::Finish);
}

#[test]
fn queued_items_are_handed_out_oldest_first() {
    let mut dispatcher = Dispatcher::new(500);
    assert!(dispatcher.submit(item("a")));
    assert!(dispatcher.submit(item("b")));
    assert_eq!(dispatcher.poll(), Action::Spawn { item: item("a"), shard: 0 });
    assert_eq!(dispatcher.poll(), Action::Spawn { item: item("b"), shard: 1 });
    assert_eq!(dispatcher.poll(), Action::Finish);
}

#[test]
fn shards_are_named_round_robin_by_spawn() {
    let mut dispatcher = Dispatcher::new(500);
    for i in 0..30 {
        assert!(dispatcher.submit(item(&format!("d{i}"))));
    }
    for i in 0..30usize {
        match dispatcher.poll() {
            Action::Spawn { item: got, shard } => {
                assert_eq!(got, item(&format!("d{i}")));
                assert_eq!(shard, i % 12);
            }
            other => panic!("expected a spawn, got {other:?}"),
        }
    }
    assert_eq!(dispatcher.poll(), Action::Finish);
}

#[test]
fn live_producer_keeps_the_walk_open() {
    let mut dispatcher = Dispatcher::new(500);
    let task = dispatcher.producer();
    assert_eq!(dispatcher.poll(), Action::Sleep { micros: 500 });
    assert_eq!(dispatcher.poll(), Action::Sleep { micros: 500 });
    assert!(!dispatcher.is_done());
    task.send(item("late")).unwrap();
    drop(task);
    assert_eq!(dispatcher.poll(), Action::Spawn { item: item("late"), shard: 0 });
    assert_eq!(dispatcher.poll(), Action::Finish);
}

#[test]
fn pause_does_not_move_the_shard() {
    let mut dispatcher = Dispatcher::new(500);
    let task = dispatcher.producer();
    dispatcher.submit(item("a"));
    assert_eq!(dispatcher.poll(), Action::Spawn { item: item("a"), shard: 0 });
    assert_eq!(dispatcher.poll(), Action::Sleep { micros: 500 });
    assert_eq!(dispatcher.poll(), Action::Sleep { micros: 500 });
    task.send(item("b")).unwrap();
    assert_eq!(dispatcher.poll(), Action::Spawn { item: item("b"), shard: 1 });
    drop(task);
    assert_eq!(dispatcher.poll(), Action::Finish);
}

#[test]
fn finish_closes_queue_and_limiter() {
    let mut dispatcher = Dispatcher::new(4);
    let late = dispatcher.producer();
    drop(late);
    assert_eq!(dispatcher.limiter().lim(), 4);
    assert_eq!(dispatcher.limiter().poll(), Admission::Granted);
    assert_eq!(dispatcher.poll(), Action::Finish);
    assert!(!dispatcher.submit(item("too late")));
    assert!(dispatcher.limiter().is_closed());
    assert_eq!(dispatcher.limiter().poll(), Admission::Rejected);
}

#[test]
fn received_item_is_handed_on() {
    assert_eq!(received(Ok(item("a"))), Some(item("a")));
}

#[test]
fn nothing_is_received_from_an_empty_or_deserted_queue() {
    assert_eq!(received(Err(tokio::sync::mpsc::error::TryRecvError::Empty)), None);
    assert_eq!(received(Err(tokio::sync::mpsc::error::TryRecvError::Disconnected)), None);
}

#[test]
fn item_is_accepted_unless_handed_back() {
    assert!(accepted(Ok(())));
    assert!(!accepted(Err(tokio::sync::mpsc::error::SendError(item("a")))));
}

#[test]
fn limiter_of_the_dispatcher_counts_on_its_own_tracker() {
    let dispatcher = Dispatcher::new(2);
    let limiter = dispatcher.limiter();
    let task = limiter.tracker().track_future(std::future::ready(()));
    assert_eq!(limiter.active(), 1);
    assert_eq!(limiter.clone().active(), 1);
    drop(task);
    assert_eq!(limiter.active(), 0);
}
