[package]
name = "vrc_get_vpm"
version = "0.1.0"
edition = "2021"
publish = false

[dependencies]
serde = { version = "1", features = ["derive"] }
serde_json = "1"
tokio = { version = "1", features = ["fs", "io-util"] }
futures = "0.3"
indexmap = { version = "2", features = ["serde"] }
log = "0.4"
