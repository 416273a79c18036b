//! A hierarchical task network (HTN) planner core.
//!
//! The crate models a partially ordered network of tasks: a precedence
//! graph over integer node identifiers, a task catalog mapping each node
//! to a primitive action or a compound task, and a breadth-first
//! progression search that decomposes compound tasks and applies
//! primitive actions until no task is left.

pub mod construction_domain;
pub mod graph;
pub mod network;
pub mod search;
pub mod tasks;
