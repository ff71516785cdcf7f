[package]
name = "tokimono"
version = "0.1.0"
edition = "2021"
publish = false

[dependencies]
color-eyre = "0.6"
crossterm = { version = "0.28", features = ["event-stream"] }
futures-util = "0.3"
ratatui = { version = "0.29", features = ["serde"] }
serde = { version = "1", features = ["derive"] }
sysinfo = "0.33"
tokio = { version = "1", features = ["macros", "rt-multi-thread", "time"] }
toml = "0.8"
