[package]
name = "openportal"
version = "0.1.0"
edition = "2021"
publish = false

[dependencies]
chrono = "=0.4.45"
once_cell = "=1.21.4"
serde = { version = "=1.0.229", features = ["derive"] }
serde_json = "=1.0.154"
shlex = "=2.0.1"
thiserror = "=2.0.21"
tokio = { version = "=1.54.1", features = ["sync", "rt", "macros", "time"] }
