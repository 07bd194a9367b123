[package]
name = "number_facts"
version = "0.1.0"
edition = "2021"
publish = false

[dependencies]
askama = "0.12"
askama_axum = "0.4"
axum = "0.7"
gmp-mpfr-sys = { version = "~1.5", default-features = false, features = ["use-system-libs"] }
num = "0.4"
rand = "0.8"
rug = { version = "~1.19", default-features = false, features = ["integer"] }
tokio = { version = "1", features = ["full"] }
