[package]
name = "vole_rust"
version = "0.1.0"
edition = "2021"
publish = false

[dependencies]
aes = "0.8"
lambdaworks-math = "*"
p256 = { version = "0.13", default-features = false, features = ["arithmetic"] }
rand = "0.8"
sha2 = "0.10"
