[package]
name = "roses"
version = "0.1.0"
edition = "2021"
publish = false

[dependencies]
anyhow = "=1.0.104"
chrono = { version = "=0.4.45", default-features = false, features = ["clock"] }
dirs = "=6.0.0"
image = { version = "=0.25.10", default-features = false, features = ["png", "jpeg", "gif", "webp"] }
keyring = { version = "=4.2.0", default-features = false, features = ["v1"] }
ratatui = { version = "=0.30.2", default-features = false, features = ["crossterm", "unstable-rendered-line-info"] }
reqwest = { version = "=0.13.5", default-features = false, features = ["blocking", "json", "query", "rustls"] }
rpassword = "=7.5.4"
rusqlite = { version = "=0.40.2", features = ["bundled"] }
serde = { version = "=1.0.229", features = ["derive"] }
serde_json = "=1.0.154"
shlex = "=1.3.0"
tokio = { version = "=1.54.1", features = ["rt", "sync"] }
toml = "=0.9.12"
unicode-width = "=0.2.3"
