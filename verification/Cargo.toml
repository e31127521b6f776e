[package]
name = "opendut"
version = "0.1.0"
edition = "2021"
publish = false

[dependencies]
autosar-data = "*"
serde = { version = "1", features = ["derive"] }
serde_json = "1"
tokio = { version = "1", default-features = false, features = ["sync", "rt", "macros"] }
uuid = { version = "1", features = ["v4", "serde"] }
clap = { version = "4", features = ["derive"] }
tracing = "0.1"
anyhow = "1"
thiserror = "1"
nix = { version = "*", default-features = false }
futures = "0.3"
url = "2"
http = "1"
