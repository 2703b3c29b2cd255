[package]
name = "aromatic"
version = "0.1.0"
edition = "2021"
publish = false

[dependencies]
sqlx = { version = "*", default-features = false, features = ["runtime-tokio", "sqlite", "derive", "migrate"] }
tokio = { version = "*", features = ["rt-multi-thread", "macros", "fs"] }
clap = { version = "*", features = ["derive"] }
console = "*"
menva = "*"
syn = { version = "*", features = ["full"] }
tracing = "*"
