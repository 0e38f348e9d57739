[package]
name = "agon_ez80_emulator"
version = "0.1.0"
edition = "2021"
publish = false

[dependencies]
ez80 = "*"
