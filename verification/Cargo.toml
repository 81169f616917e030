[package]
name = "nats_webui"
version = "0.1.0"
edition = "2021"
publish = false

[dependencies]
async-nats = "0.38"
chrono = "0.4"
futures = "0.3"
futures-util = { version = "0.3", features = ["sink"] }
log = "0.4"
reqwest = { version = "0.12", default-features = false, features = ["json"] }
rusqlite = { version = "0.31", features = ["bundled"] }
serde = { version = "1", features = ["derive"] }
serde_json = "1"
simple_logger = "5"
tokio = { version = "1", features = ["full"] }
warp = "0.3"
