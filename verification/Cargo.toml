[package]
name = "hunters_mark"
version = "0.1.0"
edition = "2021"
publish = false

[dependencies]
chrono = { version = "*", features = ["serde"] }
clap = { version = "*", features = ["derive"] }
clap_complete = "*"
color-eyre = "*"
dialoguer = "*"
directories = "*"
fuzzy-matcher = "*"
serde = { version = "*", features = ["derive"] }
thiserror = "*"
toml = "*"
