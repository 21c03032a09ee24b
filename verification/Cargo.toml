[package]
name = "stash_snitch"
version = "0.1.0"
edition = "2021"
publish = false

[dependencies]
chrono = "0.4"
csv = "1"
directories = "5"
env_logger = "0.10"
humantime = "2"
reqwest = { version = "0.11", features = ["blocking", "cookies"] }
rusqlite = { version = "0.29", features = ["bundled"] }
serde = { version = "1", features = ["derive"] }
serde_json = "1"
structopt = "0.3"
url = "2"
