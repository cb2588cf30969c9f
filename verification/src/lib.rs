//! Core of a parallel inode-cache warmer: the rules by which a directory tree
//! is walked by a bounded pool of scan tasks that feed their own work queue,
//! the parts of the engine that follow those rules, and a model of the whole
//! engine on synthetic trees in which every schedule is proved to count and
//! report what a sequential walk counts and reports.

pub mod dispatcher;
pub mod engine;
pub mod laws;
pub mod ledger;
pub mod limiter;
pub mod model;
pub mod report;
pub mod rules;
pub mod scan;
pub mod shard;
pub mod stats;
pub mod tree;
pub mod walk;
