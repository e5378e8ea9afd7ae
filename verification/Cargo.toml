[package]
name = "uf2conv"
version = "0.1.0"
edition = "2021"
publish = false

[dependencies]
anyhow = "*"
clap = { version = "*", features = ["derive"] }

[dev-dependencies]
uftwo = "*"
