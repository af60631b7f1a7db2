[package]
name = "itree"
version = "0.3.1"
edition = "2021"
publish = false

[dependencies]
clap = "2"
ignore = "0.4"
indextree = "*"
termion = "1.5"
tui = { version = "0.19", default-features = false, features = ["termion"] }
