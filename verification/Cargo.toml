[package]
name = "bolt_client"
version = "0.1.0"
edition = "2021"
publish = false

[dependencies]
bytes = "0.5"
log = "0.4"
