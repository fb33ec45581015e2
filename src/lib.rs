//! A dependency graph of work targets with a per-target lifecycle, a readiness
//! query for an outside scheduler, and an on-demand transitive reduction.

pub mod graph;
pub mod deptree;
pub mod laws;

pub use deptree::{Deptree, DeptreeError, TargetIndex, TargetState};
