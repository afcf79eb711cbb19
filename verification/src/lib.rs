//! Makespan minimisation for identical machines by local search.
//!
//! A schedule is a fixed row of machines, each holding a stack of task
//! durations. The searches move tasks between machines to lower the largest
//! machine load.

pub mod model;
pub mod random;
pub mod machine;
pub mod error;
pub mod allocator;
pub mod first_improve;
pub mod best_improve;
pub mod annealing;
