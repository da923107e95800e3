[package]
name = "funnel"
version = "0.1.0"
edition = "2021"

[dependencies]
proc-macro2 = "1"
quote = "1"
syn = "1"
ufmt = "0.1"
