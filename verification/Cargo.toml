[package]
name = "tmux_commands"
version = "0.1.0"
edition = "2021"
publish = false

[dependencies]
anyhow = "1"
fancy-regex = "0.14"
filedescriptor = "0.8"
log = "0.4"
parking_lot = "0.12"
portable-pty = "0.9"
termwiz = "0.23"
