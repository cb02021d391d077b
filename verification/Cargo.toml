[package]
name = "todui"
version = "0.1.0"
edition = "2021"
publish = false

[dependencies]
automerge = "0.6"
autosurgeon = "0.8"
chrono = "0.4"
color-eyre = "0.6"
crossterm = "0.28"
dirs = "6"
futures-util = "0.3"
ratatui = "0.29"
reqwest = { version = "0.12", default-features = false, features = ["blocking", "json"] }
serde = { version = "1", features = ["derive"] }
serde_json = "1"
shellexpand = "3"
tokio = { version = "1", features = ["rt", "sync", "time", "macros", "net"] }
tokio-tungstenite = "0.26"
toml = "0.8"
uuid = { version = "1", features = ["v4"] }

[dev-dependencies]
tempfile = "3"
