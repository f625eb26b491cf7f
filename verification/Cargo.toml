[package]
name = "fax"
version = "0.2.0"
edition = "2021"
publish = false

[dependencies]
image = { version = "0.24", default-features = false, features = ["png", "pnm"] }
proc-macro2 = "1"
quote = "1"
syn = { version = "2", features = ["full"] }
