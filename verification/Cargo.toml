[package]
name = "zerosh"
version = "0.1.0"
edition = "2021"
publish = false

[dependencies]
nix = { version = "=0.31.3", features = ["fs", "process", "signal", "term"] }
rustyline = "=18.0.1"
signal-hook = "=0.4.5"
