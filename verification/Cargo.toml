[package]
name = "orso"
version = "0.1.0"
edition = "2021"
publish = false

[dependencies]
lz4_flex = "*"
rayon = "*"
chrono = "*"
uuid = { version = "*", features = ["v4"] }
hex = "*"
libsql = { version = "*", default-features = false, features = ["core"] }
tokio = { version = "*", features = ["rt-multi-thread", "macros"] }

[dev-dependencies]
rand = "*"
