[package]
name = "vulture"
version = "0.1.0"
edition = "2021"
publish = false

[dependencies]
proc-maps = "*"
process-memory = "*"
rayon = "*"
serde = { version = "*", features = ["derive"] }
serde_json = "*"
axum = "*"
tokio = { version = "*", features = ["rt", "net", "macros", "sync", "time"] }
reqwest = { version = "*", default-features = false, features = ["blocking"] }
crossterm = "*"
ratatui = "*"
