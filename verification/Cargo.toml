[package]
name = "artsy"
version = "0.1.0"
edition = "2021"
publish = false

[dependencies]
take_mut = "0.2"
