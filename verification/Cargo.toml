[package]
name = "rust_study"
version = "0.1.0"
edition = "2021"
publish = false

[dependencies]
nix = "0.26"
rustyline = "10.1"
signal-hook = "0.3"
dirs = "4"
