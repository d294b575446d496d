[package]
name = "metrics"
version = "0.1.0"
edition = "2021"
publish = false

[dependencies]
serde = { version = "1", features = ["derive"] }
serde_json = "1"
libc = "0.2"
tokio = { version = "1", features = ["sync", "time", "macros", "rt"] }
tauri = { version = "2", default-features = false }
