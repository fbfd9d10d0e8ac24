[package]
name = "krakel"
version = "0.1.0"
edition = "2021"
publish = false

[dependencies]
thiserror = "*"
vector-traits = { version = "*", features = ["glam", "cgmath"] }

[dev-dependencies]
rand = "0.8"
