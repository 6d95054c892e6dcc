[package]
name = "voxelmesh"
version = "0.1.0"
edition = "2021"
publish = false

[dependencies]
anyhow = "*"
bevy_math = "*"
clap = { version = "*", features = ["derive"] }
glob = "*"
image = { version = "*", default-features = false, features = ["png"] }
