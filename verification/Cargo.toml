[package]
name = "monowrap"
version = "0.1.0"
edition = "2021"
publish = false

[dependencies]
getopts = "0.2"
glob-match = "0.2"
jsonschema = { version = "0.17", default-features = false }
serde = { version = "1", features = ["derive"] }
serde_json = "1"
