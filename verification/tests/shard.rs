use inode_cache::shard::{Stats, StatsPool};
use inode_cache::stats::DisplayStats;

#[test]
fn new_shard_is_zero() {
    assert_eq!(Stats::new().load(), DisplayStats { file: 0, sym: 0, dir: 0 });
}

#[test]
fn increments_go_to_their_counter() {
    let shard = Stats::new();
    shard.inc_file();
    shard.inc_file();
    shard.inc_sym();
    shard.inc_dir();
    shard.inc_dir();
    shard.inc_dir();
    assert_eq!(shard.load(), DisplayStats { file: 2, sym: 1, dir: 3 });
}

#[test]
fn add_takes_a_whole_scan() {
    let shard = Stats::new();
    shard.add(DisplayStats { file: 5, sym: 6, dir: 7 });
    shard.add(DisplayStats { file: 1, sym: 0, dir: 2 });
    assert_eq!(shard.load(), DisplayStats { file: 6, sym: 6, dir: 9 });
}

#[test]
fn accum_adds_the_shard_to_the_values() {
    let shard = Stats::new();
    shard.add(DisplayStats { file: 5, sym: 6, dir: 7 });
    let values = DisplayStats { file: 100, sym: 200, dir: 300 };
    assert_eq!(shard.accum(values), Some(DisplayStats { file: 105, sym: 206, dir: 307 }));
}

#[test]
fn accum_refuses_overflow() {
    let shard = Stats::new();
    shard.inc_sym();
    assert_eq!(shard.accum(DisplayStats { file: 0, sym: u64::MAX, dir: 0 }), None);
}

#[test]
fn shards_fold_into_one_total() {
    let pool: Vec<Stats> = (0..12).map(|_| Stats::new()).collect();
    for (i, shard) in pool.iter().enumerate() {
        shard.add(DisplayStats { file: i as u64, sym: 1, dir: 2 });
    }
    let total = pool
        .iter()
        .fold(Some(DisplayStats::new()), |sum, shard| sum.and_then(|s| shard.accum(s)));
    assert_eq!(total, Some(DisplayStats { file: 66, sym: 12, dir: 24 }));
}

#[test]
fn new_pool_sums_to_zero() {
    assert_eq!(StatsPool::new().total(), Some(DisplayStats { file: 0, sym: 0, dir: 0 }));
}

#[test]
fn pool_hands_out_its_shards_round_robin() {
    let pool = StatsPool::new();
    for at in 0..12 {
        pool.shard(at).add(DisplayStats { file: at as u64, sym: 1, dir: 0 });
    }
    for at in 0..12 {
        assert_eq!(pool.shard(at).load(), DisplayStats { file: at as u64, sym: 1, dir: 0 });
        assert_eq!(pool.shard(at + 12).load(), DisplayStats { file: at as u64, sym: 1, dir: 0 });
    }
    assert_eq!(pool.total(), Some(DisplayStats { file: 66, sym: 12, dir: 0 }));
}

#[test]
fn handles_of_one_shard_share_its_counters() {
    let pool = StatsPool::new();
    let first = pool.shard(3);
    let second = pool.shard(3);
    first.inc_dir();
    second.inc_dir();
    second.inc_file();
    assert_eq!(first.load(), DisplayStats { file: 1, sym: 0, dir: 2 });
    assert_eq!(pool.shard(4).load(), DisplayStats { file: 0, sym: 0, dir: 0 });
    assert_eq!(pool.total(), Some(DisplayStats { file: 1, sym: 0, dir: 2 }));
}

#[test]
fn pool_total_refuses_overflow() {
    let pool = StatsPool::new();
    pool.shard(0).add(DisplayStats { file: u64::MAX, sym: 0, dir: 0 });
    pool.shard(7).inc_file();
    assert_eq!(pool.total(), None);
}
