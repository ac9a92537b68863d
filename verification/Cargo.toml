[package]
name = "flyq"
version = "0.1.0"
edition = "2021"
publish = false

[dependencies]
xxhash-rust = { version = "*", features = ["xxh32", "xxh3"] }
bytes = "*"
tokio = { version = "*", features = ["rt-multi-thread", "net", "io-util", "sync", "time", "signal", "macros"] }
serde = { version = "*", features = ["derive"] }
serde_json = "*"
toml = "*"
clap = { version = "*", features = ["derive", "env"] }
anyhow = "*"
thiserror = "*"
chrono = "*"
tracing = "*"
tracing-subscriber = "*"
