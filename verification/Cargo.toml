[package]
name = "capnp"
version = "0.1.0"
edition = "2021"
publish = false

[dependencies]
cmake = "0.1"
convert_case = "=0.6.0"
eyre = "=0.6.14"
flurry = "=0.5.2"
futures-util = "=0.3.34"
proc-macro2 = "=1.0.107"
quote = "=1.0.47"
relative-path = "1"
syn = { version = "=2.0.119", features = ["full", "extra-traits"] }
tokio = { version = "=1.54.1", features = ["io-util", "rt", "sync"] }
walkdir = "=2.5.0"
wax = "=0.6.0"
which = "6"
