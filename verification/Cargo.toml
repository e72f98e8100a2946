[package]
name = "mapweave"
version = "0.1.0"
edition = "2021"
publish = false

[dependencies]
prost = "0.13"
anyhow = "1"
log = "0.4"
env_logger = "0.11"
thiserror = "2"
serde = { version = "1", features = ["derive"] }
serde_json = "1"
async-trait = "0.1"
tokio = { version = "1", features = ["rt-multi-thread", "sync", "macros"] }
reqwest = { version = "0.12", default-features = false, features = ["json", "rustls-tls"] }
earcutr = "0.4"
glam = "0.30"
bytemuck = { version = "1", features = ["derive"] }
pollster = "0.4"
wgpu = "25"
winit = { version = "0.30", default-features = false, features = ["x11", "rwh_06"] }
