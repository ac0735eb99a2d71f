[package]
name = "rat_widgets"
version = "0.1.0"
edition = "2021"
publish = false

[dependencies]
ratatui = "0.29"
unicode-width = "0.2"
base64 = "0.22"
