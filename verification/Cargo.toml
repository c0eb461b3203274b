[package]
name = "simplexe"
version = "0.1.0"
edition = "2021"
publish = false

[dependencies]
rayon = "1"
tokio = { version = "1", features = ["rt-multi-thread", "macros", "net"] }
axum = "*"
