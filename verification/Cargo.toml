[package]
name = "module_link"
version = "0.1.0"
edition = "2021"
publish = false

[dependencies]
index_vec = "=0.1.4"
rustc-hash = "=1.1.0"
oxc = { version = "=0.141.0", features = ["semantic", "ast_visit"] }
