[package]
name = "turbo-tasks-memory"
version = "0.1.0"
edition = "2021"
publish = false

[dependencies]
anyhow = "1"
event-listener = "2"
flurry = "0.4"
indexmap = "1"
serde = { version = "1", features = ["derive"] }
serde_json = "1"
tracing = "0.1"
