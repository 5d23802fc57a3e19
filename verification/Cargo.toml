[package]
name = "rusty_task"
version = "0.1.0"
edition = "2021"
publish = false

[dependencies]
chrono = "0.4"
clap = { version = "4", features = ["derive"] }
comrak = { version = "0.24", default-features = false }
figment = { version = "0.10", features = ["json", "env"] }
indexmap = "2"
log = "0.4"
regex = "1"
resolve-path = "*"
serde = { version = "1", features = ["derive"] }
serde_json = "1"
simple_logger = "*"
