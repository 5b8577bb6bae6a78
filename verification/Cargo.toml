[package]
name = "qust"
version = "0.1.0"
edition = "2021"
publish = false

[dependencies]
uuid = { version = "0.8", features = ["v4"] }
mio = { version = "0.7", features = ["os-poll", "net"] }
signal-hook = { version = "0.3", features = ["extended-siginfo"] }
log = "0.4"
env_logger = "0.8"
interaction = "*"
