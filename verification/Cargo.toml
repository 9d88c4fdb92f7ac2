[package]
name = "avl_index_tree"
version = "0.1.0"
edition = "2021"
publish = false

[dependencies]
serde = { version = "=1.0.229", features = ["derive"] }
tsify = { version = "=0.4.5", features = ["js"] }
wasm-bindgen = "=0.2.129"
