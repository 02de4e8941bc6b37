[package]
name = "bonolith"
version = "0.1.0"
edition = "2021"
publish = false

[dependencies]
encoding_rs = "0.8"
env_logger = "0.11"
log = "0.4"
rusqlite = { version = "0.32", features = ["bundled"] }
serde = { version = "1", features = ["derive"] }
serde_json = "1"
tokio = { version = "1", features = ["macros", "rt-multi-thread", "time"] }
ureq = { version = "3", features = ["json"] }
zbus = { version = "5", default-features = false, features = ["tokio"] }
