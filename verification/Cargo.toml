[package]
name = "metal_backend"
version = "0.1.0"
edition = "2021"
publish = false

[dependencies]
bytemuck = "=1.25.2"
metal = "=0.29.0"
num-traits = "=0.2.19"
serde = { version = "=1.0.229", features = ["derive"] }

[dev-dependencies]
rand = { version = "0.8", default-features = false, features = ["small_rng"] }
