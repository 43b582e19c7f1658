[package]
name = "dump_to_map"
version = "0.1.0"
edition = "2021"
publish = false

[dependencies]
actix = "*"
actix-rt = "*"
anvil-region = "*"
byteorder = "1"
clap = "2"
lazy_static = "1"
log = "0.4"
mc-varint = "*"
named-binary-tag = "*"
pretty_env_logger = "0.4"
serde = { version = "1", features = ["derive"] }
serde_json = "1"
tungstenite = "*"
