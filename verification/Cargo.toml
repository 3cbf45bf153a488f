[package]
name = "workspace_index"
version = "0.1.0"
edition = "2021"
publish = false

[dependencies]
globset = "*"
xxhash-rust = { version = "*", features = ["xxh3"] }
rayon = "*"
parking_lot = "*"
anyhow = "*"
