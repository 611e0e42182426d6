[package]
name = "twenty48"
version = "0.1.0"
edition = "2021"
publish = false

[dependencies]
rand = "0.8"
anyhow = "1"
bitcode = "*"
crossterm = "*"
directories = "*"
ratatui = "*"
