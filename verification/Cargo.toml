[package]
name = "wikidex"
version = "0.1.0"
edition = "2021"
publish = false

[dependencies]
rust-stemmers = "*"
bzip2 = "*"
xml-rs = "*"
serde = { version = "*", features = ["derive"] }
serde_json = "*"
clap = { version = "*", features = ["derive"] }
