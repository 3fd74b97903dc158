[package]
name = "drive_through_simulation"
version = "0.1.0"
edition = "2021"
publish = false

[dependencies]
rand = "*"
serde = { version = "*", features = ["derive"] }
humantime = "*"
clap = { version = "*", features = ["derive"] }
config = "*"
