[package]
name = "palimpsest"
version = "0.1.0"
edition = "2021"
publish = false

[dependencies]
anyhow = "1"
burn = { version = "0.19", default-features = false, features = ["ndarray", "autodiff"] }
burn-core = { version = "0.19", default-features = false, features = ["std"] }
clap = { version = "4", features = ["derive"] }
rand = "0.9"
serde = { version = "1", features = ["derive"] }
serde_json = "1"
