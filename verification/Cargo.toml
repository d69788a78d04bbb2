[package]
name = "registry_index"
version = "0.1.0"
edition = "2021"
publish = false

[dependencies]
anyhow = "1"
git2 = { version = "0.13", default-features = false }
lazycell = "1"
log = "0.4"
memchr = "2"
semver = "0.10"
serde = { version = "1", features = ["derive"] }
serde_json = "1"
