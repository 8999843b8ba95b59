//! The services that hold the topology and the flows.

pub mod flow_laws;
pub mod flow_plan;
pub mod flow_service;
pub mod topo_laws;
pub mod topo_order;
pub mod topo_service;
