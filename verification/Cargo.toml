[package]
name = "difference_rs"
version = "0.1.0"
edition = "2021"
publish = false

[dependencies]
serde = { version = "1", features = ["derive"] }

[dev-dependencies]
quickcheck = { version = "1", default-features = false }
serde_json = "1"
