//! A load-balancing heuristic engine.
//!
//! A fixed set of tasks, each with a positive integer duration, is assigned
//! to a fixed number of machines. The crate tracks per-machine load (the sum
//! of the durations on a machine), supports atomic task transfers that
//! conserve the task multiset, and improves an assignment with greedy local
//! search or simulated annealing, reducing the maximum load over all
//! machines (the makespan).

pub mod sums;
pub mod machine;
pub mod group;
pub mod search;
pub mod anneal;
