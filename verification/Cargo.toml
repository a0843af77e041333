[package]
name = "asciime_filter"
version = "0.1.0"
edition = "2021"
publish = false

[dependencies]
anyhow = "1"
clap = { version = "3.2", features = ["derive"] }
crossterm = "0.25"
itertools = "0.10"
rayon = "1"
rusttype = "0.9"
tui = "0.19"
v4l = "0.13"
