[package]
name = "vml"
version = "0.1.0"
edition = "2021"
publish = false

[dependencies]
tera = { version = "*", default-features = false }
toml = "*"
serde = { version = "*", features = ["derive"] }
reqwest = { version = "*", default-features = false, features = ["blocking"] }
tempfile = "*"
