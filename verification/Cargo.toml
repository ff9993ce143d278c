[package]
name = "diskmap"
version = "0.1.0"
edition = "2021"
publish = false

[dependencies]
nix = { version = "*", features = ["fs", "process", "signal", "event", "socket", "poll", "uio"] }
