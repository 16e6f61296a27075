[package]
name = "vapor-diagnostics-server"
version = "0.1.0"
edition = "2021"
publish = false

[dependencies]
axum = "0.8"
regex = "1"
serde = { version = "1", features = ["derive"] }
serde_json = "1"
tokio = { version = "1", features = ["fs", "macros", "net", "rt-multi-thread", "sync"] }
uuid = { version = "1", features = ["v4"] }
