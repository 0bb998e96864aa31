[package]
name = "cobertura"
version = "0.1.0"
edition = "2021"
publish = false

[dependencies]
quick-xml = "=0.22.0"
symbolic-common = "=8.8.0"
symbolic-demangle = { version = "=8.8.0", default-features = false, features = ["cpp", "msvc", "rust"] }
