[package]
name = "rhumb_validate"
version = "0.1.0"
edition = "2021"
publish = false

[dependencies]
serde = { version = "1", features = ["derive"] }
serde_json = "1"
serde_yml = "*"
sha2 = "0.10"
jsonschema = { version = "*", default-features = false }
time = { version = "0.3", features = ["formatting"] }
clap = { version = "4", features = ["derive"] }
thiserror = "*"
