[package]
name = "gerber"
version = "0.1.0"
edition = "2021"
publish = false

[dependencies]
smallmap = "1"
smallvec = "1"
