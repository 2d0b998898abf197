[package]
name = "rust_timing_lib"
version = "0.1.0"
edition = "2021"
publish = false

[dependencies]
midir = "=0.10.4"
proc-macro2 = { version = "=1.0.107", default-features = false }
quote = { version = "=1.0.47", default-features = false }
spin_sleep = "=1.3.3"
syn = { version = "=2.0.119", default-features = false, features = ["clone-impls", "full", "parsing", "printing", "visit-mut"] }
