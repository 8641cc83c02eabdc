pub mod collections;
pub mod concurrency;
pub mod config;
pub mod detect;
pub mod display;
pub mod enumeration;
pub mod memory;
pub mod net;
pub mod report;
pub mod text;
pub mod translate;
