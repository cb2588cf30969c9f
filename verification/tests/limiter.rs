use inode_cache::limiter::{decide_admission, Admission, TaskSpawner};

#[test]
fn admission_is_granted_below_the_limit() {
    assert_eq!(decide_admission(false, 0, 1), Admission::Granted);
    assert_eq!(decide_admission(false, 499, 500), Admission::Granted);
}

#[test]
fn admission_waits_at_the_limit() {
    assert_eq!(decide_admission(false, 500, 500), Admission::Wait { micros: 500 });
    assert_eq!(decide_admission(false, 7, 3), Admission::Wait { micros: 500 });
    assert_eq!(decide_admission(false, 0, 0), Admission::Wait { micros: 500 });
}

#[test]
fn admission_is_rejected_once_closed() {
    assert_eq!(decide_admission(true, 0, 500), Admission::Rejected);
    assert_eq!(decide_admission(true, 500, 500), Admission::Rejected);
}

#[test]
fn new_spawner_keeps_its_limit() {
    let spawner = TaskSpawner::new(500);
    assert_eq!(spawner.lim(), 500);
    assert_eq!(spawner.active(), 0);
    assert!(!spawner.is_closed());
}

#[test]
fn spawner_counts_the_tasks_alive() {
    let spawner = TaskSpawner::new(2);
    assert_eq!(spawner.poll(), Admission::Granted);
    let first = spawner.tracker().track_future(std::future::ready(()));
    assert_eq!(spawner.active(), 1);
    assert_eq!(spawner.poll(), Admission::Granted);
    let second = spawner.tracker().track_future(std::future::ready(()));
    assert_eq!(spawner.active(), 2);
    assert_eq!(spawner.poll(), Admission::Wait { micros: 500 });
    drop(first);
    assert_eq!(spawner.active(), 1);
    assert_eq!(spawner.poll(), Admission::Granted);
    drop(second);
    assert_eq!(spawner.active(), 0);
}

#[test]
fn spawner_with_no_room_never_grants() {
    let spawner = TaskSpawner::new(0);
    assert_eq!(spawner.poll(), Admission::Wait { micros: 500 });
}

#[test]
fn closed_spawner_rejects() {
    let spawner = TaskSpawner::new(3);
    assert!(spawner.close());
    assert!(spawner.is_closed());
    assert_eq!(spawner.poll(), Admission::Rejected);
    assert!(!spawner.close());
}

#[test]
fn wait_is_over_once_closed_and_empty() {
    let spawner = TaskSpawner::new(3);
    let task = spawner.tracker().track_future(std::future::ready(()));
    spawner.close();
    assert!(!spawner.tracker().is_empty());
    drop(task);
    assert!(spawner.tracker().is_empty());
    let waiting = spawner.wait();
    drop(waiting);
}
