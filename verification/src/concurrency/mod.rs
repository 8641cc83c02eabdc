//! Concurrency primitives found in function bodies.

pub mod atomic;
pub mod blocking;
pub mod channel;
pub mod guard_laws;
