[package]
name = "cfdb_petgraph"
version = "0.1.0"
edition = "2021"
publish = false

[dependencies]
petgraph = "=0.8.3"
indexmap = "=2.14.2"
regex = "=1.13.1"
serde = { version = "=1.0.229", features = ["derive"] }
serde_json = "=1.0.154"
toml = "=1.1.8"
syn = { version = "2", features = ["full", "visit"] }
git2 = { version = "*", default-features = false }
