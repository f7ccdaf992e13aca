[package]
name = "hybrid_inlining_paper"
version = "0.1.0"
edition = "2021"
publish = false

[dependencies]
bitcode = { version = "*", features = ["serde"] }
