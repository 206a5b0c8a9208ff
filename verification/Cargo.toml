[package]
name = "purtel"
version = "0.1.0"
edition = "2021"

[dependencies]
darling = "0.14"
proc-macro2 = "1"
syn = { version = "1", features = ["full"] }
