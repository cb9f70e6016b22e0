[package]
name = "purikura"
version = "0.1.0"
edition = "2021"
publish = false

[dependencies]
wasm-bindgen = "0.2"
wgpu = "0.20"
bytemuck = "1"
serde = { version = "1", features = ["derive"] }
serde_json = "1"
