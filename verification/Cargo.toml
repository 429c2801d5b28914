[package]
name = "rendering"
version = "0.1.0"
edition = "2021"
publish = false

[dependencies]
lazy_static = "=1.5.1"
pulldown-cmark = { version = "=0.13.6", default-features = false, features = ["html"] }
shellwords = "=1.1.0"
syntect = { version = "=4.6.0", default-features = false, features = ["default-fancy"] }
tera = { version = "=1.20.1", default-features = false }

[dev-dependencies]
regex = "=1.13.1"
