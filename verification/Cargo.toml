[package]
name = "restty"
version = "0.1.0"
edition = "2021"
publish = false

[dependencies]
unicode-width = "0.1"
ratatui = "0.28"
crossterm = "0.28"
