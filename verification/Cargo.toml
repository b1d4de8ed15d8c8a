[package]
name = "rules_rust_external"
version = "0.1.0"
edition = "2021"
publish = false

[dependencies]
anyhow = "*"
cargo_metadata = "*"
cargo-raze = "*"
flate2 = "*"
hex = "*"
semver = "*"
serde = { version = "*", features = ["derive"] }
serde_json = "*"
sha2 = "*"
tar = "*"
toml = "*"
