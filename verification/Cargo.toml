[package]
name = "but-rebase"
version = "0.1.0"
edition = "2021"
publish = false

[dependencies]
gix = { version = "=0.90.0", default-features = false, features = ["sha1"] }
anyhow = "=1.0.104"
