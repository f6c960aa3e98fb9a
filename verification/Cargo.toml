[package]
name = "mergehex-rs"
version = "0.1.0"
edition = "2021"
publish = false

[dependencies]
object = "0.36"
clap = { version = "4", features = ["derive"] }
thiserror = "2"
