[package]
name = "forest_core"
version = "0.1.0"
edition = "2021"

[dependencies]
base64 = "0.13"
flate2 = "1"
rand = "0.4"
sha1 = "0.6"
