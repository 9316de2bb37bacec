[package]
name = "pbkit"
version = "0.1.0"
edition = "2021"
publish = false

[dependencies]
anyhow = "1"
base64 = "0.22"
clap = { version = "4", features = ["derive"] }
clap_complete = "4"
hex = "0.4"
prost = "*"
prost-reflect = { version = "*", features = ["serde"] }
prost-types = "*"
protox = "*"
serde_json = "1"
tree-sitter = "*"
tree-sitter-proto = "*"
