[package]
name = "redshift"
version = "0.1.0"
edition = "2021"
publish = false

[dependencies]
serde = { version = "1", features = ["derive"] }
ron = "0.8"
bincode = { version = "2", features = ["serde"] }
