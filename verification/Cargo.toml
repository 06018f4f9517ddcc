[package]
name = "near_tools"
version = "0.1.0"
edition = "2021"
publish = false

[dependencies]
actix = "0.13"
actix-rt = "2"
anyhow = "1"
clap = { version = "4", features = ["derive"] }
near-async = "0.38"
near-crypto = "0.38"
near-indexer-primitives = "0.38"
near-o11y = "0.38"
near-primitives = "0.38"
near-primitives-core = "0.38"
parking_lot = "0.12"
tracing = "0.1"
