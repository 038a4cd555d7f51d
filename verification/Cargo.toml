[package]
name = "snapshot_render"
version = "0.1.0"
edition = "2021"
publish = false

[dependencies]
serde = "1"
serde_json = "1"
csv = "1"
ron = "0.8"
toml = "0.5"
