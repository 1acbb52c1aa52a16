[package]
name = "trawld"
version = "0.1.0"
edition = "2021"
publish = false

[dependencies]
zbus = "3"
