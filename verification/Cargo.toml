[package]
name = "joader"
version = "0.1.0"
edition = "2021"
publish = false

[dependencies]
rand = "0.8"
bitmaps = "3"
rmp = "0.8"
