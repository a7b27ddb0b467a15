[package]
name = "outpack"
version = "0.1.0"
edition = "2021"
publish = false

[dependencies]
sha2 = "0.10"
md-5 = "0.10"
git2 = { version = "*", default-features = false }
rocket = { version = "0.5", features = ["json"] }
serde = { version = "1", features = ["derive"] }
serde_json = "1"
