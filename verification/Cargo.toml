[package]
name = "character_converter"
version = "2.1.0"
edition = "2021"
publish = false

[dependencies]
bincode = "1"
once_cell = "1"
