[package]
name = "esox"
version = "0.1.0"
edition = "2021"
publish = false

[dependencies]
glam = "=0.34.2"
hecs = "=0.11.2"
fontdb = "=0.24.0"
serde = { version = "1", features = ["derive"] }
toml = "*"
dirs = "*"
