[package]
name = "hexmvt"
version = "0.1.0"
edition = "2021"
publish = false

[dependencies]
h3o = { version = "*", features = ["geo"] }
geo = "*"
geozero = { version = "*", features = ["with-mvt"] }
ahash = "*"
