[package]
name = "dy"
version = "0.1.0"
edition = "2021"
publish = false

[dependencies]
colored = "*"
lsp-types = "*"
serde = { version = "*", features = ["derive"] }
thiserror = "*"
