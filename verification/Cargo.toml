[package]
name = "serialcli"
version = "0.1.0"
edition = "2021"
publish = false

[dependencies]
serialport = { version = "=4.10.1", default-features = false }
crossterm = "=0.25.0"
tui = "=0.19.0"
unicode-width = "=0.1.14"
