[package]
name = "poly_derive"
version = "0.1.0"
edition = "2021"
publish = false

[dependencies]
hex = "0.4"
sha256 = { version = "1", default-features = false }
