[package]
name = "mates"
version = "0.1.0"
edition = "2021"
publish = false

[dependencies]
uuid = { version = "1", features = ["v4"] }
atomicwrites = "0.4"
clap = "3"
email = "*"
