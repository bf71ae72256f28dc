[package]
name = "ripples"
version = "0.1.0"
edition = "2021"
publish = false

[dependencies]
anyhow = "1"
evdev = "0.13"
lexopt = "0.3"
rustix = { version = "1", features = ["event", "fs", "pipe", "time"] }
signal-hook = "0.3"
tabular = "0.2"
