[package]
name = "multra"
version = "0.1.0"
edition = "2021"
publish = false

[dependencies]
bytes = "1"
encoding_rs = "0.8"
futures-util = { version = "0.3", default-features = false, features = ["alloc"] }
httparse = "1"
memchr = "2"
mime = "0.3"
