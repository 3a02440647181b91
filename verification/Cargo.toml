[package]
name = "regop"
version = "0.1.0"
edition = "2021"
publish = false

[dependencies]
regex = "=1.13.1"
anyhow = "=1.0.104"
atty = "=0.2.14"
clap = { version = "=4.6.7", features = ["derive"] }
console = "=0.16.6"
similar = { version = "=3.2.0", features = ["inline"] }
