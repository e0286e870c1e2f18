[package]
name = "diskwatch"
version = "0.1.0"
edition = "2021"
publish = false

[dependencies]
ratatui = { version = "0.29", default-features = false }
sysinfo = "0.32"
libc = "0.2"
