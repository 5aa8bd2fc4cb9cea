[package]
name = "telemetry_edge"
version = "0.1.0"
edition = "2021"
publish = false

[dependencies]
anyhow = "1"
cel = "*"
clap = { version = "4", features = ["derive"] }
serde = { version = "1", features = ["derive"] }
serde_json = "1"
thiserror = "2"
tokio = { version = "1", features = ["macros", "net", "rt-multi-thread", "signal", "sync", "time"] }
toml = "*"
tracing = "0.1"
