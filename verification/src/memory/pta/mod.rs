//! Whole-program pointer analysis: field sensitive, with call-site contexts.

pub mod analysis;
pub mod build_laws;
pub mod builder;
pub mod constraint;
pub mod context;
pub mod dump;
pub mod ids;
pub mod laws;
pub mod interproc;
pub mod loc;
pub mod model;
pub mod origin_laws;
pub mod program;
pub mod queries;
pub mod result;
pub mod solver;
