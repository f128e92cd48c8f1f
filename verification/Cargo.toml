[package]
name = "eyros"
version = "0.1.0"
edition = "2021"
publish = false

[dependencies]
desert = "2"
async-std = "1"
futures = "0.3"
async-trait = "0.1"
failure = "0.1"
random-access-storage = "4"
random-access-disk = "2"

[dev-dependencies]
random = "0.12"
