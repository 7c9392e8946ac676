[package]
name = "xyzdb_engine"
version = "0.1.0"
edition = "2021"
publish = false

[dependencies]
postcard = { version = "1", default-features = false, features = ["alloc"] }
serde = { version = "1", features = ["derive"] }
dashmap = "6"
crossbeam-channel = "0.5"
parking_lot = "0.12"
bytemuck = "1"
tracing = "0.1"
