[package]
name = "okft"
version = "0.1.0"
edition = "2021"
publish = false

[dependencies]
saphyr = "=0.3.3"
saphyr-parser = "=0.3.3"
pulldown-cmark = { version = "=0.13.6", default-features = false }
clap = { version = "=4.6.7", features = ["derive"] }
serde = { version = "=1.0.229", features = ["derive"] }
serde_json = "=1.0.154"
ignore = "=0.4.34"
tokio = { version = "=1.54.1", features = ["rt-multi-thread", "net", "signal", "macros", "io-std"] }
axum = "=0.8.9"
rmcp = { version = "=3.8.0", features = ["server", "transport-io", "macros"] }
