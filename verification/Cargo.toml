[package]
name = "raft_core"
version = "0.1.0"
edition = "2021"
publish = false

[dependencies]
rand = "0.7"
log = "0.4"
regex = "1"
serde = { version = "1", features = ["derive"] }
serde_derive = "1"
rmp-serde = "1"
config = { version = "*", default-features = false }
rustyline = { version = "*", default-features = false }
tokio = { version = "1", default-features = false, features = ["sync", "rt"] }
