[package]
name = "tex_ls"
version = "0.1.0"
edition = "2021"
publish = false

[dependencies]
rowan = "*"
smol_str = "*"
serde = { version = "1", features = ["derive"] }
schemars = "*"
