[package]
name = "threads_macro"
version = "0.1.0"
edition = "2021"
publish = false

[dependencies]
regex = "1"
z3 = "*"
syn = { version = "1", features = ["full", "extra-traits"] }
quote = "1"
proc-macro2 = "1"
