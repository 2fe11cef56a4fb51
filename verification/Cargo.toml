[package]
name = "image_to_ascii"
version = "0.1.0"
edition = "2021"
publish = false

[dependencies]
fontdue = "*"
image = "*"
font-kit = "*"
