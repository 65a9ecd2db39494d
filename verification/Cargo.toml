[package]
name = "space_index"
version = "0.1.0"
edition = "2021"
publish = false

[dependencies]
crossterm = "0.25"
tui = "0.19"
fs2 = "0.4"
unicode-width = "0.1"
