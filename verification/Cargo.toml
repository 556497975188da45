[package]
name = "nebula2"
version = "0.1.0"
edition = "2021"
publish = false

[dependencies]
rug = { version = "=1.24.1", default-features = false, features = ["integer"] }
gmp-mpfr-sys = { version = "1.6", default-features = false, features = ["use-system-libs"] }
bstr = "=1.13.1"
clap = { version = "=4.6.7", features = ["derive"] }
