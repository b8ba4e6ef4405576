[package]
name = "soong_digest"
version = "0.1.0"
edition = "2021"
publish = false

[dependencies]
flate2 = "1"
structopt = "0.3"
termcolor = "1"

[dev-dependencies]
regex = "1"
