[package]
name = "geoindex"
version = "0.1.0"
edition = "2021"
publish = false

[dependencies]
miniz_oxide = "*"
serde = { version = "*", features = ["derive"] }
serde_json = "*"
clap = { version = "*", features = ["derive", "env"] }
tokio = { version = "*", features = ["rt-multi-thread", "macros"] }
poem = { version = "*", features = ["websocket"] }
futures-util = "*"
tracing-subscriber = "*"
