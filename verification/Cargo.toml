[package]
name = "git_stats"
version = "0.1.0"
edition = "2021"
publish = false

[dependencies]
miniz_oxide = "*"
flate2 = "*"
sha1_smol = "*"
anyhow = "*"
clap = { version = "*", features = ["derive"] }
serde = { version = "*", features = ["derive"] }
serde_json = "*"
chrono = "*"
httparse = "*"
log = "*"
simple_logger = "*"
