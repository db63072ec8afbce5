[package]
name = "amdgpu_fancontrol"
version = "0.1.0"
edition = "2021"
publish = false

[dependencies]
clap = { version = "=4.6.7", features = ["derive"] }
serde = { version = "=1.0.229", features = ["derive"] }
toml = "=1.1.7+spec-1.1.0"

[dev-dependencies]
fs-err = "*"
