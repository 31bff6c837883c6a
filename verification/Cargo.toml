[package]
name = "shell_mon"
version = "0.1.4"
edition = "2021"
publish = false

[dependencies]
ratatui = "0.29"
