[package]
name = "ocel_mine"
version = "0.1.0"
edition = "2021"
publish = false

[dependencies]
ocel = "=0.1.5"
chrono = "=0.4.45"
serde = { version = "=1.0.229", features = ["derive"] }
