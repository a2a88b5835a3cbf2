[package]
name = "zonemap"
version = "0.1.0"
edition = "2021"
publish = false

[dependencies]
base64 = "=0.22.1"
wow-adt = "=0.3.2"
