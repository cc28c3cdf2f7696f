//! The proving daemon: tree geometry, workload plans, proof locations, and the
//! decisions of its roles.

pub mod descriptor;
pub mod dispatch_loop;
pub mod geometry;
pub mod leaf;
pub mod locations;
pub mod plan;
pub mod queue_run;
pub mod registry;
pub mod tree;
pub mod work;
