[package]
name = "pvz_pak_tool"
version = "0.1.0"
edition = "2021"
publish = false

[dependencies]
encoding_rs = "0.8"
clap = { version = "4", features = ["derive"] }
colored = "*"
