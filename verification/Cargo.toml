[package]
name = "snippets"
version = "0.1.0"
edition = "2021"
publish = false

[dependencies]
anyhow = "=1.0.104"
chrono = "=0.4.45"
clap = { version = "=4.6.7", features = ["derive"] }
cli-clipboard = "*"
fern = "=0.7.1"
itertools = "=0.14.0"
log = "=0.4.35"
markdown = "=1.0.0"
ratatui = "=0.30.2"
rkyv = "=0.8.18"
serde = { version = "=1.0.229", features = ["derive"] }
serde_yaml = "=0.9.34"
syntect = { version = "=5.3.0", default-features = false, features = ["default-fancy"] }
