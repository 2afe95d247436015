[package]
name = "cargo_refactor_lib"
version = "0.1.0"
edition = "2021"
publish = false

[dependencies]
syn = { version = "2", features = ["full", "visit-mut", "extra-traits"] }
proc-macro2 = "1"
prettyplease = "0.2"
clap = { version = "4", features = ["derive"] }
walkdir = "2"
