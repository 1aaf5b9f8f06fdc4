[package]
name = "valve_pak"
version = "1.4.0"
edition = "2021"
publish = false

[dependencies]
anyhow = "1"
clap = { version = "4", features = ["derive"] }
crc32fast = "1"
walkdir = "2"
