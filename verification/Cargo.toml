[package]
name = "ftop"
version = "0.1.0"
edition = "2021"
publish = false

[dependencies]
nix = { version = "0.29", features = ["signal", "process"] }
libc = "0.2"
sysinfo = { version = "0.29", default-features = false }
ratatui = "0.26"
crossterm = "0.27"
