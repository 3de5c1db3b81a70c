[package]
name = "maze"
version = "0.1.0"
edition = "2021"
publish = false

[dependencies]
rand = "=0.8.8"
ansi_term = "=0.12.1"
serde = { version = "=1.0.229", features = ["derive"] }
image = "=0.25.10"
imageproc = "=0.27.0"
contour_tracing = { version = "=1.0.12", features = ["array"] }
svg = "=0.18.0"
