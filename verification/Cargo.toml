[package]
name = "hypergo"
version = "0.1.0"
edition = "2021"
publish = false

[dependencies]
cgmath = "=0.18.0"
clap = { version = "4", features = ["derive"] }
env_logger = "=0.11.11"
log = "=0.4.34"
more-asserts = "=0.3.1"
