[package]
name = "narrow_down"
version = "0.1.0"
edition = "2021"
publish = false

[dependencies]
mur3 = "*"
twox-hash = "*"
peroxide = "*"
serde_json = "*"
