[package]
name = "ttyskk"
version = "0.1.0"
edition = "2021"
publish = false

[dependencies]
anyhow = "1"
encoding_rs = "0.8"
libc = "0.2"
nix = { version = "0.30", features = ["term"] }
portable-pty = "0.9"
serde_json = "1"
signal-hook = "0.3"
toml = "0.8"
unicode-width = "0.2"
vte = "0.15"
