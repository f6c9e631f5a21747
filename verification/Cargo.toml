[package]
name = "ootr"
version = "0.1.0"
edition = "2021"
publish = false

[dependencies]
rand = "=0.9.5"
nonempty-collections = "=1.4.0"
serde_json = "=1.0.154"
tokio = { version = "1", features = ["io-util", "io-std", "fs", "rt-multi-thread", "macros"] }
async-compression = { version = "=0.4.52", features = ["tokio", "zlib"] }
clap = { version = "4", features = ["derive"] }
thiserror = "=2.0.21"
