[package]
name = "conc_bug_detector"
version = "0.1.0"
edition = "2021"
publish = false

[dependencies]
log = "=0.4.35"
parking_lot = { version = "=0.12.5", features = ["send_guard"] }
petgraph = "=0.8.3"
smallvec = "=1.16.4"
tokio = { version = "=1.54.1", features = ["macros", "rt-multi-thread", "time"] }
