[package]
name = "moon_workspace_core"
version = "0.1.0"
edition = "2021"
publish = false

[dependencies]
rustc-hash = "=2.1.3"
schematic = { version = "=0.20.12", features = ["schema"] }
serde = { version = "=1.0.229", features = ["derive"] }
miette = "=7.6.0"
