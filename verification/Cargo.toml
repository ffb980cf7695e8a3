[package]
name = "pingora-core"
version = "0.1.0"
edition = "2021"
publish = false

[dependencies]
async-trait = "0.1"
futures = "0.3"
log = "0.4"
nix = "0.24.3"
once_cell = "1"
openssl = "0.10"
parking_lot = "0.12"
tokio = { version = "1", features = ["io-util", "macros", "net", "rt", "rt-multi-thread", "time"] }
