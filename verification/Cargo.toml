[package]
name = "urdf_loader"
version = "0.1.0"
edition = "2021"
publish = false

[dependencies]
ahash = "=0.8.12"
anyhow = "=1.0.104"
arrow = { version = "=54.3.1", default-features = false }
re_chunk = "=0.23.4"
re_log = "=0.23.4"
re_log_types = "=0.23.4"
re_types = "=0.23.4"
urdf-rs = "=0.9.0"
