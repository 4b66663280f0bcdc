//! Runtime: execution state, dependency graph, memory and scheduling.

pub mod agent;
pub mod context;
pub mod graph;
pub mod model;
pub mod scheduler;
pub mod state;
pub mod checks;
pub mod duration;
pub mod memory;
pub mod group_order;
