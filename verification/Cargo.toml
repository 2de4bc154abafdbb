[package]
name = "dotty"
version = "0.1.0"
edition = "2021"
publish = false

[dependencies]
rand = "0.8"
home-dir = "*"
git2 = "*"
log = "0.4"
simplelog = "*"
clap = { version = "4", features = ["derive", "env"] }
serde = { version = "1", features = ["derive"] }
serde_yaml = "0.9"
