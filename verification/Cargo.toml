[package]
name = "rtlens"
version = "0.1.0"
edition = "2021"
publish = false

[dependencies]
unicode-bidi = "0.3"
unicode-width = "0.2"
unicode-normalization = "0.1"
strip-ansi-escapes = "0.2"
regex = "1"
serde = { version = "1", features = ["derive"] }
serde_json = "1"
