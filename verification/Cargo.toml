[package]
name = "dgen"
version = "0.1.0"
edition = "2021"
publish = false

[dependencies]
rand = "0.5"
byteorder = "1"
encoding = "0.2"
structopt = "0.2"
