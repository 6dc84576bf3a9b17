[package]
name = "bestof"
version = "0.1.0"
edition = "2021"
publish = false

[dependencies]
anyhow = "*"
chrono = { version = "*", features = ["serde"] }
human-duration = "*"
minreq = { version = "*", features = ["https", "json-using-serde"] }
serde = { version = "*", features = ["derive"] }
