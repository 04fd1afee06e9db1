[package]
name = "pkcs7"
version = "0.1.0"
edition = "2021"
publish = false

[dependencies]
der = { version = "0.7", features = ["alloc", "derive", "oid"] }
spki = { version = "0.7", features = ["alloc"] }
x509-cert = { version = "0.2", default-features = false }
