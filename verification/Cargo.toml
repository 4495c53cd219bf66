[package]
name = "model_scan"
version = "0.1.0"
edition = "2021"
publish = false

[dependencies]
sevenz-rust2 = { version = "=0.24.1", default-features = false, features = ["util"] }
tauri = { version = "=2.12.5", default-features = false }
tempfile = "=3.27.0"
zip = { version = "=9.1.0", default-features = false, features = ["deflate"] }
