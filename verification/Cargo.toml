[package]
name = "deny_core"
version = "0.1.0"
edition = "2021"
publish = false

[dependencies]
cargo_metadata = "*"
semver = "*"
serde = { version = "*", features = ["derive"] }
slog = "*"
twox-hash = "*"
