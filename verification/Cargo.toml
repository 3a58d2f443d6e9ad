[package]
name = "teatop"
version = "3.0.0"
edition = "2021"
publish = false

[dependencies]
crossterm = "0.29"
libc = "0.2"
nix = { version = "0.29", features = ["fs", "signal", "user"] }
nvml-wrapper = "0.10"
procfs = "0.17"
serde = { version = "1", features = ["derive"] }
serde_yaml = "0.9"
sysinfo = "0.33"
unicode-width = "0.2"
ureq = "3"
