[package]
name = "kayak_render_macros"
version = "0.1.0"
edition = "2021"
publish = false

[dependencies]
proc-macro-crate = "1.1"
proc-macro-error = "1.0"
proc-macro2 = "1.0"
quote = "1.0"
syn = { version = "1.0", features = ["full"] }
