[package]
name = "peersearch"
version = "0.1.0"
edition = "2021"
publish = false

[dependencies]
rand = "0.8"
html5ever = "0.26"
tokio = { version = "1", features = ["rt-multi-thread", "macros", "sync", "time"] }
warp = "0.3"
serde = { version = "1", features = ["derive"] }
serde_json = "1"
