//! Petri nets and their state graphs.

pub mod net_laws;
pub mod print_laws;
pub mod state_graph;
pub mod structure;
