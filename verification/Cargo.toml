[package]
name = "mstow"
version = "0.1.0"
edition = "2021"
publish = false

[dependencies]
pathdiff = "*"
clap = { version = "*", features = ["derive"] }
clap-verbosity-flag = "*"
log = "*"
simple_logger = "*"
