[package]
name = "llika"
version = "0.1.0"
edition = "2021"
publish = false

[dependencies]
petgraph = "*"
serde = { version = "*", features = ["derive"] }
serde_json = "*"
clap = { version = "*", features = ["derive"] }
csv = "*"
svg = "*"
thiserror = "*"
zip = { version = "*", default-features = false, features = ["deflate"] }
