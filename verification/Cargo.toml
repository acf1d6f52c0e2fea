[package]
name = "anchor-generate-cpi-crate"
version = "0.1.0"
edition = "2021"
publish = false

[dependencies]
anchor-idl = "=0.4.1"
heck = "=0.4.1"
proc-macro2 = "=1.0.107"
quote = "=1.0.47"
syn = { version = "=1.0.109", features = ["full"] }
