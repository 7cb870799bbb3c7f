[package]
name = "submerge"
version = "0.1.0"
edition = "2021"
publish = false

[dependencies]
clap = "*"
git2 = { version = "*", default-features = false }
