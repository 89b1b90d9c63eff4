[package]
name = "zipcompose"
version = "0.1.0"
edition = "2021"
publish = false

[dependencies]
clap = { version = "4", features = ["derive"] }
serde = { version = "1", features = ["derive"] }
serde_yml = "*"
zip = { version = "*", default-features = false, features = ["time"] }
