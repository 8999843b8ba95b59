//! Decision logic of the edge-cloud flow deployment daemon: the stage machine
//! that drives the daemon's task chains, the topology ordering of compute
//! nodes, the flow bookkeeping and the scheduling plans.

pub mod config;
pub mod daemon;
pub mod error;
pub mod model;
pub mod service;
pub mod strategy;
pub mod text;
