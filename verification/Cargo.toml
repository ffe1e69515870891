[package]
name = "l10n"
version = "0.1.0"
edition = "2021"
publish = false

[dependencies]
fluent-bundle = "*"
fluent-syntax = "*"
intl-memoizer = "*"
unic-langid = "*"
serde = { version = "*", features = ["derive"] }
toml = "*"
