[package]
name = "process_wick"
version = "0.1.0"
edition = "2021"
publish = false

[dependencies]
sysinfo = "*"
nix = { version = "*", features = ["signal", "process"] }
log = "*"
clap = { version = "*", features = ["derive"] }
env_logger = "*"
chrono = "*"
tokio = { version = "*", features = ["rt-multi-thread", "macros", "time"] }
