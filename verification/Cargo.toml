[package]
name = "logic_sim"
version = "0.1.0"
edition = "2021"
publish = false

[dependencies]
derive_more = "0.99"
lerp = "*"
raylib = "3.7"
