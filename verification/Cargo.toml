[package]
name = "texture_atlas"
version = "0.1.0"
edition = "2021"
publish = false

[dependencies]
clap = "2"
image = "0.21"
rand = "0.6"
