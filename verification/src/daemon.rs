//! The daemon: its stages, the task chain of each stage, and the state
//! machine that decides what the daemon does next.

pub mod machine;
pub mod runs;
pub mod stage;
pub mod task_chain;
