[package]
name = "notion-backup"
version = "0.1.0"
edition = "2021"
publish = false

[dependencies]
anyhow = "1"
chrono = "0.4"
clap = { version = "4", features = ["derive"] }
dotenvy = "0.15"
env_logger = "0.11"
log = "0.4"
regex = "1"
serde_json = { version = "1", features = ["preserve_order"] }
ureq = { version = "3", features = ["json"] }
