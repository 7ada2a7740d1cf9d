[package]
name = "height_profile"
version = "0.1.0"
edition = "2021"
publish = false

[dependencies]
rand = "0.8"
colorgrad = "0.6"
