[package]
name = "escpos_assets"
version = "0.1.0"
edition = "2021"
publish = false

[dependencies]
image = { version = "*", default-features = false, features = ["png", "jpeg"] }
heck = "*"
glob = "*"
syn = { version = "*", features = ["full"] }
quote = "*"
proc-macro2 = "*"
