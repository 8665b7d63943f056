[package]
name = "cargo_cite"
version = "0.1.0"
edition = "2021"
publish = false

[dependencies]
hayagriva = "*"
clap = { version = "*", features = ["derive"] }
cargo-files-core = "*"
glob = "*"
