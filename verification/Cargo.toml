[package]
name = "nuillu_code"
version = "0.1.0"
edition = "2021"
publish = false

[dependencies]
anyhow = "1"
async-trait = "0.1"
clap = { version = "4", features = ["derive"] }
eframe = { version = "=0.37.0", default-features = false, features = ["x11"] }
schemars = "1"
serde = { version = "1", features = ["derive"] }
serde_json = "=1.0.154"
sha2 = "=0.10.9"
tokio = { version = "1", features = ["rt", "macros", "sync", "time", "process", "io-util"] }
tracing = "0.1"
tracing-log = "0.2"
tracing-subscriber = "0.3"
