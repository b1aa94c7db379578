[package]
name = "ice_rooms"
version = "0.1.0"
edition = "2021"
publish = false

[dependencies]
rand = "*"
sorted-vec = "*"
itertools = "*"
