//! The translation of one function body.
//!
//! Every block has a chain of places; its terminator becomes the transitions
//! that lead from the last place of the chain to the first place of the next
//! block, to the end of the function or to the end of the program.

pub mod blocks;
pub mod body;
pub mod concurrency;
pub mod drop_unsafe;
pub mod laws;
pub mod names;
pub mod resource_laws;
pub mod terminator;
