[package]
name = "multitool"
version = "0.1.0"
edition = "2021"
publish = false

[dependencies]
anyhow = "=1.0.104"
image = { version = "=0.24.9", default-features = false, features = ["dds", "png"] }
serde = { version = "=1.0.229", features = ["derive"] }
strum = "=0.26.3"
strum_macros = "=0.26.4"
thiserror = "=1.0.69"
toml = "=0.8.23"
