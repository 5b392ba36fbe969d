[package]
name = "pvm_modules"
version = "0.1.0"
edition = "2021"
publish = false

[dependencies]
ethabi = "18.0.0"
sp-core = "*"
