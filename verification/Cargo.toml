[package]
name = "iridium_stomp"
version = "0.1.0"
edition = "2021"
publish = false

[dependencies]
tokio = { version = "1", features = ["full"] }
tokio-util = { version = "0.7", features = ["codec"] }
futures = "0.3"
bytes = "1"
thiserror = "2"
tracing = "0.1"
chrono = "0.4"
clap = { version = "4", features = ["derive"] }
