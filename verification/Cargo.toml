[package]
name = "exhume"
version = "0.1.0"
edition = "2021"
publish = false

[dependencies]
blake3 = { version = "1", features = ["pure"] }
chrono = { version = "0.4", default-features = false, features = ["alloc", "clock", "serde", "std"] }
clap = { version = "4", features = ["derive"] }
indicatif = "0.17"
nix = { version = "0.29", features = ["fs", "ioctl", "signal"] }
serde = { version = "1", features = ["derive"] }
serde_json = "1"
thiserror = "1"
toml = "0.8"
tracing = "0.1"
tracing-subscriber = { version = "0.3", features = ["env-filter"] }
