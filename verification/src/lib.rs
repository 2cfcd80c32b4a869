//! Verified core of a multi-agent software delivery pipeline: stage ordering,
//! task dependency graphs, self-fix loop decisions and coordinator steps.

pub mod agent;
pub mod error;
pub mod ids;
pub mod memory;
pub mod swarm;
pub mod tools;
