[package]
name = "cargo_interactive_update"
version = "0.1.0"
edition = "2021"
publish = false

[dependencies]
semver = "*"
toml_edit = "*"
cargo-lock = "*"
serde_json = "*"
curl = "*"
crossterm = "*"
clap = { version = "*", features = ["derive"] }
termbg = "*"
