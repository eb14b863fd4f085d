[package]
name = "omegaflow"
version = "0.1.0"
edition = "2021"
publish = false

[dependencies]
anise = "=0.10.6"
hifitime = "=4.3.1"
world_magnetic_model = "=0.4.0"
glam = "=0.34.2"
axum = "=0.8.9"
tokio = { version = "=1.54.1", features = ["rt-multi-thread", "macros", "net"] }
serde = { version = "=1.0.229", features = ["derive"] }
