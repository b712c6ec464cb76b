[package]
name = "material3_optimzer"
version = "0.1.0"
edition = "2021"
publish = false

[dependencies]
clap = { version = "4", features = ["derive", "cargo"] }
thiserror = "1"
zip = { version = "0.6", default-features = false, features = ["deflate"] }
