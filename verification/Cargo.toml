[package]
name = "cargo_feature_combinations"
version = "0.1.0"
edition = "2021"
publish = false

[dependencies]
strip-ansi-escapes = "*"
cargo_metadata = "*"
serde = { version = "*", features = ["derive"] }
serde_json = "*"
serde_json_merge = "*"
termcolor = "*"
color-eyre = "*"
