[package]
name = "rlink_sink_conf"
version = "0.1.0"
edition = "2021"
publish = false

[dependencies]
dashmap = "*"
lazy_static = "*"
log = "*"
rlink = "*"
serde = { version = "*", features = ["derive"] }
serde_json = "*"
tokio = { version = "*", features = ["rt", "rt-multi-thread", "time"] }
