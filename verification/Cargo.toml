[package]
name = "utf8_rs"
version = "0.1.0"
edition = "2021"
publish = false

[dependencies]
mlua = { version = "0.10", features = ["lua54", "module"] }
unicode-segmentation = "1"

[dev-dependencies]
regex = "1"
