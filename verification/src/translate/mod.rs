//! From function bodies to the Petri net.

pub mod mir;
pub mod mir_to_pn;
