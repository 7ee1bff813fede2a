//! TaskForge: a cron-like task planner whose schedule parser, task registry,
//! retry policy and run statistics are verified with Verus.

pub mod text;
pub mod scheduler;
pub mod time;
pub mod registry;
pub mod executor;
pub mod history;
pub mod cli;
