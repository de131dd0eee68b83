[package]
name = "swt"
version = "0.1.0"
edition = "2021"
publish = false

[dependencies]
clap = { version = "4", features = ["derive"] }
console = "0.15"
indicatif = "0.17"
rayon = "1"
dashmap = "6"
memmap2 = "0.9"
miette = { version = "7", features = ["fancy"] }
serde = { version = "1", features = ["derive"] }
serde_json = "1"
thiserror = "2"
ignore = "0.4"
tokio = { version = "1", features = ["rt-multi-thread", "macros", "io-std", "time", "sync"] }
tower-lsp = "0.20"
reqwest = { version = "0.12", default-features = false, features = ["blocking", "rustls-tls"] }
self_update = { version = "0.42", default-features = false, features = ["archive-tar", "archive-zip", "compression-flate2", "rustls"] }
