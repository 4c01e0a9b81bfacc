[package]
name = "cargo_show_asm"
version = "0.1.0"
edition = "2021"
publish = false

[dependencies]
anyhow = "1"
interprocess = "1"
owo-colors = { version = "4", features = ["supports-colors"] }
rustc-demangle = "0.1"
