[package]
name = "ikv"
version = "0.1.0"
edition = "2021"
publish = false

[dependencies]
fxhash = "0.2"
