[package]
name = "vxb_wallet"
version = "0.1.0"
edition = "2021"
publish = false

[dependencies]
rand = "0.9"
dashmap = "6"
serde = { version = "1", features = ["derive"] }
thiserror = "2"
anyhow = "1"
tokio = { version = "1", features = ["rt-multi-thread", "macros", "sync", "time"] }
