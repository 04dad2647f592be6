[package]
name = "contree"
version = "0.1.0"
edition = "2021"
publish = false

[dependencies]
glam = { version = "0.30", features = ["serde"] }
flume = { version = "0.11", default-features = false }
bytemuck = { version = "1", features = ["derive"] }
bitflags = "2"
serde = { version = "1", features = ["derive"] }
thiserror = "2"
parking_lot = { version = "0.12", features = ["serde"] }
rayon = "1"
tracing = "0.1"
anyhow = "1"
pollster = "0.4"
wgpu = "27"
winit = { version = "0.30", default-features = false, features = ["rwh_06", "x11"] }
