[package]
name = "georender"
version = "0.1.0"
edition = "2021"
publish = false

[dependencies]
osm-is-area = "*"
earcutr = "*"

[dev-dependencies]
hex = "*"
