[package]
name = "abi_codegen"
version = "0.1.0"
edition = "2021"
publish = false

[dependencies]
serde_json = "*"
clap = { version = "*", features = ["derive"] }
glob = "*"
rayon = "*"
thiserror = "*"
