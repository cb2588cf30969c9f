use inode_cache::engine::{run, Engine};
use inode_cache::model::{Event, Phase};
use inode_cache::scan::{ChildEntry, ErrorRecord, Meta};
use inode_cache::stats::DisplayStats;
use inode_cache::tree::{Node, Tree};
use inode_cache::walk::{reference_walk, walk_directory, Outcome};

fn dir(path: &str, device: u64) -> ChildEntry {
    ChildEntry::Found {
        path: path.as_bytes().to_vec(),
        meta: Meta { is_symlink: false, is_file: false, is_dir: true, device },
    }
}

fn file(path: &str, device: u64) -> ChildEntry {
    ChildEntry::Found {
        path: path.as_bytes().to_vec(),
        meta: Meta { is_symlink: false, is_file: true, is_dir: false, device },
    }
}

fn symlink(path: &str, device: u64) -> ChildEntry {
    ChildEntry::Found {
        path: path.as_bytes().to_vec(),
        meta: Meta { is_symlink: true, is_file: false, is_dir: false, device },
    }
}

fn unreadable(path: &str, cause: &str) -> ChildEntry {
    ChildEntry::Unreadable { path: path.as_bytes().to_vec(), cause: String::from(cause) }
}

fn record(path: &str, cause: &str) -> ErrorRecord {
    ErrorRecord { path: path.as_bytes().to_vec(), cause: String::from(cause) }
}

fn sorted(mut errors: Vec<ErrorRecord>) -> Vec<ErrorRecord> {
    errors.sort_by(|a, b| (&a.path, &a.cause).cmp(&(&b.path, &b.cause)));
    errors
}

fn paths(errors: &[ErrorRecord]) -> Vec<String> {
    errors.iter().map(|e| String::from_utf8(e.path.clone()).unwrap()).collect()
}

/// root/a holds f1 and f2, root/b holds f3, root/c lies on another device
/// and holds a file and a directory of its own.
fn example() -> Tree {
    let mut tree = Tree::new();
    let root = tree.add_root(b"root".to_vec(), 1);
    let a = tree.add_child(root, dir("root/a", 1)).unwrap();
    tree.add_child(a, file("root/a/f1", 1));
    tree.add_child(a, file("root/a/f2", 1));
    let b = tree.add_child(root, dir("root/b", 1)).unwrap();
    tree.add_child(b, file("root/b/f3", 1));
    let c = tree.add_child(root, dir("root/c", 2)).unwrap();
    tree.add_child(c, file("root/c/hidden", 2));
    let deep = tree.add_child(c, dir("root/c/deep", 2)).unwrap();
    tree.add_child(deep, symlink("root/c/deep/link", 2));
    tree
}

/// A directory with `width` subdirectories, each with `width` subdirectories
/// of its own, each of those with one file and one symlink.
fn wide(width: usize) -> Tree {
    let mut tree = Tree::new();
    let root = tree.add_root(b"top".to_vec(), 5);
    for i in 0..width {
        let mid = tree.add_child(root, dir(&format!("top/{i}"), 5)).unwrap();
        for j in 0..width {
            let low = tree.add_child(mid, dir(&format!("top/{i}/{j}"), 5)).unwrap();
            tree.add_child(low, file(&format!("top/{i}/{j}/f"), 5));
            tree.add_child(low, symlink(&format!("top/{i}/{j}/l"), 5));
        }
    }
    tree
}

/// `siblings` directories under one root, each with two files; the one at
/// `denied` cannot be listed.
fn with_denied(siblings: usize, denied: usize) -> Tree {
    let mut tree = Tree::new();
    let root = tree.add_root(b"r".to_vec(), 1);
    for i in 0..siblings {
        let d = tree.add_child(root, dir(&format!("r/{i}"), 1)).unwrap();
        tree.add_child(d, file(&format!("r/{i}/x"), 1));
        tree.add_child(d, file(&format!("r/{i}/y"), 1));
        if i == denied {
            tree.deny(d, String::from("Permission denied (os error 13)"));
        }
    }
    tree
}

/// `dirs` directories under one root, each with `each` children whose
/// metadata cannot be read and one file.
fn faulty(dirs: usize, each: usize) -> Tree {
    let mut tree = Tree::new();
    let root = tree.add_root(b"r".to_vec(), 1);
    for i in 0..dirs {
        let d = tree.add_child(root, dir(&format!("r/{i}"), 1)).unwrap();
        for j in 0..each {
            tree.add_child(d, unreadable(&format!("r/{i}/{j}"), "gone"));
        }
        tree.add_child(d, file(&format!("r/{i}/f"), 1));
    }
    tree
}

/// A schedule that mixes delays, steps of the dispatcher, of the consumer
/// and of tasks at changing positions, from a seed.
fn schedule(seed: u64, len: usize) -> Vec<Event> {
    let mut state = seed;
    let mut events = Vec::new();
    for _ in 0..len {
        state = state.wrapping_mul(6364136223846793005).wrapping_add(1442695040888963407);
        let pick = (state >> 33) % 8;
        events.push(match pick {
            0 | 1 => Event::Dispatch,
            2 => Event::Drain,
            3 => Event::Delay,
            4 | 5 => Event::Advance(0),
            6 => Event::Advance(((state >> 40) % 5) as usize),
            _ => Event::Advance(((state >> 40) % 64) as usize),
        });
    }
    events
}

#[test]
fn example_tree_counts_three_files_and_three_directories() {
    let out = run(example(), 500, 50, &Vec::new()).unwrap();
    assert_eq!(out.counts, DisplayStats { file: 3, sym: 0, dir: 3 });
    assert!(out.errors.is_empty());
}

#[test]
fn example_tree_by_the_sequential_walk() {
    let out = reference_walk(&example()).unwrap();
    assert_eq!(out, Outcome { counts: DisplayStats { file: 3, sym: 0, dir: 3 }, errors: Vec::new() });
}

#[test]
fn walk_of_a_subdirectory_counts_what_lies_below() {
    let tree = example();
    assert_eq!(walk_directory(&tree, 1).unwrap().counts, DisplayStats { file: 2, sym: 0, dir: 0 });
    assert_eq!(walk_directory(&tree, 6).unwrap().counts, DisplayStats { file: 1, sym: 1, dir: 1 });
    assert_eq!(walk_directory(&tree, 8).unwrap().counts, DisplayStats { file: 0, sym: 1, dir: 0 });
}

#[test]
fn sequential_walk_reports_errors_directory_by_directory() {
    let out = reference_walk(&faulty(2, 2)).unwrap();
    assert_eq!(out.counts, DisplayStats { file: 2, sym: 0, dir: 2 });
    assert_eq!(paths(&out.errors), vec!["r/0/0", "r/0/1", "r/1/0", "r/1/1"]);
}

#[test]
fn engine_agrees_with_the_sequential_walk() {
    for width in [0usize, 1, 2, 5] {
        for bound in [1usize, 2, 3, 500] {
            for seed in 0..6u64 {
                let expected = reference_walk(&wide(width)).unwrap();
                let out = run(wide(width), bound, 50, &schedule(seed, 300)).unwrap();
                assert_eq!(out.counts, expected.counts);
                assert_eq!(sorted(out.errors), sorted(expected.errors));
            }
        }
    }
}

#[test]
fn engine_agrees_with_the_sequential_walk_on_errors() {
    for capacity in [1usize, 2, 50] {
        for bound in [1usize, 3] {
            for seed in 0..6u64 {
                let expected = reference_walk(&faulty(4, 3)).unwrap();
                let out = run(faulty(4, 3), bound, capacity, &schedule(seed, 200)).unwrap();
                assert_eq!(out.counts, DisplayStats { file: 4, sym: 0, dir: 4 });
                assert_eq!(out.counts, expected.counts);
                assert_eq!(out.errors.len(), 12);
                assert_eq!(sorted(out.errors), sorted(expected.errors));
            }
        }
    }
}

#[test]
fn wide_tree_has_the_counts_of_its_shape() {
    let out = run(wide(5), 3, 50, &Vec::new()).unwrap();
    assert_eq!(out.counts, DisplayStats { file: 25, sym: 25, dir: 30 });
}

#[test]
fn directory_on_another_device_is_counted_but_never_entered() {
    let mut engine = Engine::new(example(), 2, 50).unwrap();
    engine.settle();
    assert_eq!(engine.scanned(), &vec![0, 1, 4]);
    assert_eq!(engine.outcome().counts, DisplayStats { file: 3, sym: 0, dir: 3 });
}

#[test]
fn directory_on_another_device_is_never_entered_under_any_schedule() {
    for seed in 0..20u64 {
        let mut engine = Engine::new(example(), 2, 50).unwrap();
        for event in schedule(seed, 100) {
            engine.step(event);
            assert!(engine.phase() != Phase::Admitting { node: 6 });
            assert!(engine.phase() != Phase::Admitting { node: 8 });
        }
        engine.settle();
        let mut scanned = engine.scanned().clone();
        scanned.sort();
        assert_eq!(scanned, vec![0, 1, 4]);
    }
}

#[test]
fn another_device_as_a_root_of_its_own_is_walked() {
    let mut tree = example();
    tree.roots.push(6);
    let out = run(tree, 4, 50, &Vec::new()).unwrap();
    assert_eq!(out.counts, DisplayStats { file: 4, sym: 1, dir: 4 });
}

#[test]
fn active_tasks_stay_within_the_bound() {
    for bound in [1usize, 2, 7] {
        let mut engine = Engine::new(wide(12), bound, 50).unwrap();
        let mut peak = 0;
        let mut turn = 0usize;
        while !engine.finished() {
            let event = if turn % 5 == 4 { engine.fair_event() } else { Event::Dispatch };
            engine.step(event);
            assert!(engine.active_tasks() <= bound);
            assert_eq!(engine.bound(), bound);
            peak = peak.max(engine.active_tasks());
            turn += 1;
        }
        assert_eq!(peak, bound);
        assert_eq!(engine.outcome().counts, DisplayStats { file: 144, sym: 144, dir: 156 });
    }
}

#[test]
fn full_pool_makes_the_dispatcher_wait() {
    let mut engine = Engine::new(wide(3), 1, 50).unwrap();
    engine.step(Event::Dispatch);
    engine.step(Event::Dispatch);
    assert_eq!(engine.active_tasks(), 1);
    engine.step(Event::Advance(0));
    assert_eq!(engine.queued(), 3);
    engine.step(Event::Dispatch);
    engine.step(Event::Dispatch);
    assert_eq!(engine.active_tasks(), 1);
    engine.step(Event::Dispatch);
    assert_eq!(engine.phase(), Phase::Admitting { node: 11 });
    for _ in 0..10 {
        engine.step(Event::Dispatch);
        assert_eq!(engine.phase(), Phase::Admitting { node: 11 });
        assert_eq!(engine.active_tasks(), 1);
    }
    engine.step(Event::Advance(0));
    engine.step(Event::Dispatch);
    assert_eq!(engine.phase(), Phase::Ready);
    assert_eq!(engine.active_tasks(), 1);
}

#[test]
fn item_queued_between_look_and_count_is_found() {
    let mut engine = Engine::new(example(), 500, 50).unwrap();
    engine.step(Event::Dispatch);
    engine.step(Event::Dispatch);
    assert_eq!(engine.active_tasks(), 1);
    engine.step(Event::Dispatch);
    assert_eq!(engine.phase(), Phase::Probing);
    engine.step(Event::Advance(0));
    assert_eq!(engine.active_tasks(), 0);
    assert_eq!(engine.queued(), 2);
    engine.step(Event::Dispatch);
    assert_eq!(engine.phase(), Phase::Rechecking);
    engine.step(Event::Dispatch);
    assert_eq!(engine.phase(), Phase::Admitting { node: 1 });
    assert!(!engine.finished());
    engine.settle();
    assert_eq!(engine.outcome().counts, DisplayStats { file: 3, sym: 0, dir: 3 });
}

#[test]
fn running_task_keeps_the_dispatcher_from_ending() {
    let mut engine = Engine::new(example(), 500, 50).unwrap();
    engine.step(Event::Dispatch);
    engine.step(Event::Dispatch);
    for _ in 0..20 {
        engine.step(Event::Dispatch);
        assert!(!engine.finished());
        assert!(engine.phase() == Phase::Probing || engine.phase() == Phase::Ready);
    }
}

#[test]
fn full_error_queue_makes_the_task_wait() {
    let mut tree = Tree::new();
    let root = tree.add_root(b"r".to_vec(), 1);
    for j in 0..5 {
        tree.add_child(root, unreadable(&format!("r/{j}"), "gone"));
    }
    let mut engine = Engine::new(tree, 1, 2).unwrap();
    assert_eq!(engine.capacity(), 2);
    engine.play(&vec![Event::Dispatch, Event::Dispatch, Event::Advance(0)]);
    assert_eq!(engine.active_tasks(), 1);
    assert_eq!(engine.buffered(), 0);
    engine.step(Event::Advance(0));
    assert_eq!(engine.buffered(), 1);
    engine.step(Event::Advance(0));
    assert_eq!(engine.buffered(), 2);
    for _ in 0..5 {
        engine.step(Event::Advance(0));
        engine.step(Event::Dispatch);
        assert_eq!(engine.buffered(), 2);
        assert_eq!(engine.active_tasks(), 1);
        assert!(engine.errors().is_empty());
        assert!(engine.phase() != Phase::Done);
    }
    engine.step(Event::Drain);
    assert_eq!(engine.buffered(), 1);
    assert_eq!(paths(engine.errors()), vec!["r/0"]);
    engine.step(Event::Advance(0));
    assert_eq!(engine.buffered(), 2);
    engine.step(Event::Drain);
    engine.step(Event::Drain);
    assert_eq!(engine.buffered(), 0);
    engine.step(Event::Advance(0));
    assert_eq!(engine.active_tasks(), 1);
    engine.step(Event::Advance(0));
    assert_eq!(engine.active_tasks(), 0);
    assert_eq!(engine.buffered(), 2);
    engine.play(&vec![Event::Dispatch, Event::Dispatch, Event::Dispatch]);
    assert_eq!(engine.phase(), Phase::Done);
    assert!(!engine.finished());
    engine.step(Event::Drain);
    assert!(!engine.finished());
    engine.step(Event::Drain);
    assert!(engine.finished());
    assert_eq!(paths(engine.errors()), vec!["r/0", "r/1", "r/2", "r/3", "r/4"]);
}

#[test]
fn error_queue_stays_within_its_capacity() {
    for capacity in [1usize, 3] {
        for seed in 0..10u64 {
            let mut engine = Engine::new(faulty(5, 4), 3, capacity).unwrap();
            for event in schedule(seed, 400) {
                engine.step(event);
                assert!(engine.buffered() <= capacity);
                assert!(engine.active_tasks() <= 3);
            }
            while !engine.finished() {
                let event = engine.fair_event();
                engine.step(event);
                assert!(engine.buffered() <= capacity);
            }
            assert_eq!(engine.errors().len(), 20);
        }
    }
}

#[test]
fn delays_do_not_keep_the_walk_from_ending() {
    let mut engine = Engine::new(wide(4), 2, 50).unwrap();
    let mut steps = 0usize;
    while !engine.finished() {
        engine.step(Event::Delay);
        engine.step(Event::Advance(9));
        engine.step(Event::Delay);
        let fair = engine.fair_event();
        engine.step(fair);
        steps += 1;
        assert!(steps <= 12 * 21 + 3);
    }
    assert_eq!(engine.outcome().counts, DisplayStats { file: 16, sym: 16, dir: 20 });
}

#[test]
fn fair_steps_needed_stay_within_the_measure() {
    for seed in 0..10u64 {
        let mut engine = Engine::new(faulty(3, 2), 2, 1).unwrap();
        let noise = schedule(seed, 1000);
        let mut fair_steps = 0usize;
        let mut turn = 0usize;
        while !engine.finished() {
            engine.step(noise[turn % noise.len()]);
            if !engine.finished() {
                let fair = engine.fair_event();
                engine.step(fair);
                fair_steps += 1;
            }
            turn += 1;
        }
        assert!(fair_steps <= 12 * 4 + 8 * 6 + 3);
        assert_eq!(engine.errors().len(), 6);
    }
}

#[test]
fn delays_alone_change_nothing() {
    let mut engine = Engine::new(example(), 2, 50).unwrap();
    engine.play(&vec![Event::Delay; 50]);
    assert_eq!(engine.phase(), Phase::Ready);
    assert_eq!(engine.queued(), 1);
    assert_eq!(engine.active_tasks(), 0);
    assert_eq!(engine.counts(), DisplayStats::new());
}

#[test]
fn finished_engine_stays_as_it_is() {
    let mut engine = Engine::new(faulty(2, 2), 2, 50).unwrap();
    engine.settle();
    assert!(engine.finished());
    let errors = engine.errors().clone();
    engine.play(&schedule(3, 40));
    assert!(engine.finished());
    assert_eq!(engine.queued(), 0);
    assert_eq!(engine.active_tasks(), 0);
    assert_eq!(engine.buffered(), 0);
    assert_eq!(engine.errors(), &errors);
    assert_eq!(engine.scanned().len(), 3);
    assert_eq!(engine.counts(), DisplayStats { file: 2, sym: 0, dir: 2 });
}

#[test]
fn one_denied_directory_is_one_error() {
    for siblings in [1usize, 2, 9] {
        for denied in 0..siblings {
            let tree = with_denied(siblings, denied);
            let out = run(tree, 3, 50, &schedule(denied as u64, 60)).unwrap();
            assert_eq!(
                out.errors,
                vec![record(&format!("r/{denied}"), "Permission denied (os error 13)")]
            );
            assert_eq!(
                out.counts,
                DisplayStats { file: 2 * (siblings as u64 - 1), sym: 0, dir: siblings as u64 }
            );
        }
    }
}

#[test]
fn denied_root_is_one_error_and_no_counts() {
    let mut tree = Tree::new();
    let root = tree.add_root(b"locked".to_vec(), 1);
    tree.add_child(root, file("locked/f", 1));
    tree.deny(root, String::from("Permission denied"));
    let out = run(tree, 1, 1, &Vec::new()).unwrap();
    assert_eq!(out.counts, DisplayStats::new());
    assert_eq!(out.errors, vec![record("locked", "Permission denied")]);
}

#[test]
fn unreadable_children_are_skipped_one_by_one() {
    let mut tree = Tree::new();
    let root = tree.add_root(b"r".to_vec(), 1);
    tree.add_child(root, file("r/a", 1));
    tree.add_child(root, unreadable("r/b", "x"));
    tree.add_child(root, ChildEntry::Broken { cause: String::from("y") });
    tree.add_child(root, symlink("r/c", 1));
    let out = run(tree, 1, 50, &Vec::new()).unwrap();
    assert_eq!(out.counts, DisplayStats { file: 1, sym: 1, dir: 0 });
    assert_eq!(out.errors, vec![record("r/b", "x"), record("r", "y")]);
}

#[test]
fn same_tree_twice_gives_the_same_counts() {
    let first = run(wide(4), 3, 50, &schedule(1, 200)).unwrap();
    let second = run(wide(4), 2, 1, &schedule(2, 500)).unwrap();
    assert_eq!(first.counts, second.counts);
    assert_eq!(sorted(first.errors), sorted(second.errors));
    let first = run(faulty(3, 3), 3, 50, &schedule(1, 200)).unwrap();
    let second = run(faulty(3, 3), 1, 2, &schedule(2, 500)).unwrap();
    assert_eq!(first.counts, second.counts);
    assert_eq!(sorted(first.errors), sorted(second.errors));
}

#[test]
fn no_root_is_an_empty_walk() {
    let out = run(Tree::new(), 500, 50, &Vec::new()).unwrap();
    assert_eq!(out, Outcome { counts: DisplayStats::new(), errors: Vec::new() });
    let mut engine = Engine::new(Tree::new(), 500, 50).unwrap();
    engine.step(Event::Dispatch);
    engine.step(Event::Dispatch);
    assert!(!engine.finished());
    engine.step(Event::Dispatch);
    assert!(engine.finished());
}

#[test]
fn same_root_twice_is_walked_twice() {
    let mut tree = example();
    tree.roots.push(0);
    let mut engine = Engine::new(tree, 2, 50).unwrap();
    engine.settle();
    let mut scanned = engine.scanned().clone();
    scanned.sort();
    assert_eq!(scanned, vec![0, 0, 1, 1, 4, 4]);
    assert_eq!(engine.outcome().counts, DisplayStats { file: 6, sym: 0, dir: 6 });
}

#[test]
fn run_refuses_a_bound_of_zero() {
    assert_eq!(run(example(), 0, 50, &Vec::new()), None);
}

#[test]
fn run_refuses_a_capacity_of_zero() {
    assert_eq!(run(example(), 500, 0, &Vec::new()), None);
}

#[test]
fn run_refuses_an_ill_formed_tree() {
    let tree = Tree {
        nodes: vec![Node { entry: dir("a", 1), children: vec![0], denied: None }],
        roots: vec![0],
    };
    assert_eq!(run(tree, 500, 50, &Vec::new()), None);
    let tree = Tree { nodes: Vec::new(), roots: vec![0] };
    assert!(Engine::new(tree, 500, 50).is_none());
}

#[test]
fn engine_with_a_bound_of_zero_never_starts_a_task() {
    let mut engine = Engine::new(example(), 0, 50).unwrap();
    for _ in 0..20 {
        engine.step(Event::Dispatch);
        assert_eq!(engine.active_tasks(), 0);
    }
    assert_eq!(engine.phase(), Phase::Admitting { node: 0 });
}

#[test]
fn engine_with_a_capacity_of_zero_never_takes_a_record() {
    let mut engine = Engine::new(faulty(1, 1), 1, 0).unwrap();
    engine.play(&vec![
        Event::Dispatch,
        Event::Dispatch,
        Event::Advance(0),
        Event::Dispatch,
        Event::Dispatch,
        Event::Advance(0),
    ]);
    assert_eq!(engine.active_tasks(), 1);
    for _ in 0..20 {
        engine.step(Event::Advance(0));
        engine.step(Event::Drain);
        assert_eq!(engine.active_tasks(), 1);
        assert_eq!(engine.buffered(), 0);
        assert!(engine.errors().is_empty());
    }
}

#[test]
fn errors_of_one_task_arrive_in_listing_order() {
    for seed in 0..20u64 {
        let mut engine = Engine::new(faulty(3, 3), 3, 2).unwrap();
        engine.play(&schedule(seed, 300));
        engine.settle();
        let all = paths(engine.errors());
        assert_eq!(all.len(), 9);
        for i in 0..3 {
            let of_task: Vec<&String> =
                all.iter().filter(|p| p.starts_with(&format!("r/{i}/"))).collect();
            assert_eq!(
                of_task,
                vec![&format!("r/{i}/0"), &format!("r/{i}/1"), &format!("r/{i}/2")]
            );
        }
    }
}

#[test]
fn errors_of_tasks_interleave_as_they_are_handed_over() {
    let mut engine = Engine::new(faulty(2, 2), 2, 50).unwrap();
    engine.play(&vec![
        Event::Dispatch,
        Event::Dispatch,
        Event::Advance(0),
        Event::Dispatch,
        Event::Dispatch,
        Event::Dispatch,
        Event::Dispatch,
    ]);
    assert_eq!(engine.active_tasks(), 2);
    engine.play(&vec![
        Event::Advance(1),
        Event::Advance(0),
        Event::Advance(1),
        Event::Advance(0),
        Event::Advance(1),
        Event::Advance(0),
    ]);
    assert_eq!(engine.active_tasks(), 0);
    assert_eq!(engine.buffered(), 4);
    engine.settle();
    assert_eq!(paths(engine.errors()), vec!["r/1/0", "r/0/0", "r/1/1", "r/0/1"]);
}

#[test]
fn tasks_write_to_shards_in_turn() {
    let mut engine = Engine::new(wide(3), 500, 50).unwrap();
    engine.play(&vec![Event::Dispatch, Event::Dispatch, Event::Advance(0)]);
    assert_eq!(engine.counts(), DisplayStats { file: 0, sym: 0, dir: 3 });
    engine.settle();
    assert_eq!(engine.counts(), DisplayStats { file: 9, sym: 9, dir: 12 });
}
