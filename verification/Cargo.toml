[package]
name = "tidyfile"
version = "0.1.0"
edition = "2021"
publish = false

[dependencies]
chrono = "0.4"
globset = "0.4"
regex = "1"
serde = { version = "1", features = ["derive"] }
serde_json = "1"
rusqlite = { version = "*", features = ["bundled"] }
notify = "*"
notify-debouncer-full = "*"
trash = "*"
thiserror = "*"
