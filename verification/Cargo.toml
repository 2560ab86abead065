[package]
name = "driftwatcher"
version = "0.1.0"
edition = "2021"
publish = false

[dependencies]
anyhow = "*"
clap = { version = "*", features = ["derive"] }
dialoguer = "*"
fs-err = "*"
glob = "*"
serde = { version = "*", features = ["derive"] }
serde_json = "*"
serde_yaml = "*"
sha2 = "*"

[dev-dependencies]
tempfile = "*"
