[package]
name = "nordconf"
version = "0.1.0"
edition = "2021"
publish = false

[dependencies]
anyhow = "*"
base64 = "*"
chrono = "*"
ctrlc = "*"
indicatif = "*"
log = "*"
parking_lot = "*"
reqwest = { version = "*", default-features = false, features = ["json", "rustls-tls"] }
rprompt = "*"
serde = { version = "*", features = ["derive"] }
serde_json = "*"
thiserror = "*"
tokio = { version = "*", features = ["rt-multi-thread", "macros", "sync", "time"] }
tracing-subscriber = { version = "*", features = ["env-filter", "chrono"] }
