//! The bug detectors.

pub mod atomicity_laws;
pub mod atomicity_reports;
pub mod atomicity_violation;
pub mod cycle_laws;
pub mod deadlock;
pub mod deadlock_laws;
pub mod lock_cycles;
pub mod resource_usage;
pub mod shortest_path;
