[package]
name = "cargo_dyndrv"
version = "0.1.0"
edition = "2021"
publish = false

[dependencies]
bytes = "1"
cargo_metadata = "0.23"
color-eyre = "0.6"
harmonia-utils-hash = "=0.0.0-alpha.0"
nix-nar = "0.6"
serde = { version = "1", features = ["derive"] }
serde_json = "1"
tokio = { version = "1", features = ["macros", "rt-multi-thread", "sync", "io-util", "net"] }
which = "8"
