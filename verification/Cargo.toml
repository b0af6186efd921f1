[package]
name = "muse_lib"
version = "0.1.0"
edition = "2021"
publish = false

[dependencies]
hound = "=3.5.1"
rubato = "=0.14.1"
