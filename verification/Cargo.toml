[package]
name = "mesh_semantic"
version = "0.1.0"
edition = "2021"
publish = false

[dependencies]
data-encoding = "2"
ed25519-dalek = "2"
parking_lot = "0.12"
serde = { version = "1", features = ["derive"] }
serde_json = "1"
