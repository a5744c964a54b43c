[package]
name = "wla"
version = "0.1.0"
edition = "2021"
publish = false

[dependencies]
unicode-segmentation = "*"
unicode-normalization = "*"
rand = "*"
serde = { version = "*", features = ["derive"] }
serde_json = "*"
clap = { version = "*", features = ["derive"] }
