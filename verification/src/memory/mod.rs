//! Memory locations and aliasing.

pub mod alias_engine;
pub mod alias_laws;
pub mod pointsto;
pub mod pta;
