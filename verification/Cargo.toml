[package]
name = "tui_runtime"
version = "0.1.0"
edition = "2021"
publish = false

[dependencies]
futures = "*"
ratatui = "*"
tokio = { version = "*", features = ["rt", "sync", "time", "signal"] }
tokio-stream = { version = "*", features = ["time"] }
