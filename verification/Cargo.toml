[package]
name = "uring"
version = "0.1.0"
edition = "2021"
publish = false

[dependencies]
bytes = "1"
byteorder = "1"
serde = { version = "1", features = ["derive"] }
serde_json = "1"
clap = "2"
slog = "2"
