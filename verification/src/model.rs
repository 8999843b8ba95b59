//! The records that the daemon reads and writes: topology, flows and
//! monitoring targets.

pub mod flow;
pub mod monitor;
pub mod topo;
